//! The macro assembler: the block of each generator, the entry macros,
//! the outer dispatch macro, and the whole output.

use vstd::prelude::*;

use crate::compiler::arguments::{gather, gather_arguments, named_table};
use crate::compiler::repeat::{
    all_unnamed, candidates, generate_generator_macro_name, generate_repeat_name,
    generate_repeat_picker_macro_name, generator_name, picker_argument_text, picker_name,
    repeat_name, GeneratablePattern, PatternView,
};
use crate::compiler::surface::{
    compile_prefix, compile_surface_strings, compiled, surface_compiled,
};
use crate::compiler::token::{tokenize_spec, CompilerToken};
use crate::config::{Common, Config, Core, Definition, Fallbacks, Generator};
use crate::error::{Error, ErrorKind, Failure};
use crate::preprocessor::Preprocessable;
use crate::text::{join, push_joined, views};

verus! {

/// The final text of an entity.  An entity that is not resolved is a
/// failure that holds the text it was written as.
pub open spec fn final_text(entity: Preprocessable<String>) -> Result<Seq<char>, Failure> {
    match entity {
        Preprocessable::NotPreprocessed(source) => Err(
            Failure::at(ErrorKind::NotPreprocessed, source@, 0),
        ),
        Preprocessable::Preprocessed(text) => Ok(text@),
    }
}

/// The final texts of a generator, each a failure where there is none.
pub struct GeneratorTexts {
    pub empty: Result<Seq<char>, Failure>,
    pub unparity: Result<Seq<char>, Failure>,
    pub preamble: Result<Seq<char>, Failure>,
    pub repeat: Result<Seq<char>, Failure>,
    pub postamble: Result<Seq<char>, Failure>,
}

impl Generator {
    /// The final texts of the generator.
    pub open spec fn texts(self) -> GeneratorTexts {
        GeneratorTexts {
            empty: final_text(self.fallbacks.empty),
            unparity: final_text(self.fallbacks.unparity),
            preamble: final_text(self.preamble),
            repeat: final_text(self.repeat),
            postamble: final_text(self.postamble),
        }
    }

    /// Whether the repeat body, where the template grammar accepts it,
    /// refers to no named argument.
    pub open spec fn expandable(self) -> bool {
        match self.repeat.resolved() {
            None => true,
            Some(body) => match tokenize_spec(body) {
                Err(_) => true,
                Ok(tokens) => all_unnamed(tokens),
            },
        }
    }
}

/// Whether the group size, where the argument list declares exactly one, is
/// not zero.
pub open spec fn groupable(core: Core) -> bool {
    match gather(core.args@, true) {
        Err(_) => true,
        Ok(gathered) => match gathered.group {
            None => true,
            Some(size) => size >= 1,
        },
    }
}

/// All that the expansion of a generator takes, read from the
/// configuration.
///
/// Every text of the generator must be resolved, the argument list must
/// declare exactly one group size, and the template grammar must accept the
/// repeat body.  What is wanting is looked for in this order: the two
/// fallbacks, the preamble, the postamble, the argument list, the group
/// size, the repeat body.
pub open spec fn repeat_pattern(
    generator: GeneratorTexts,
    common: Common,
    core: Core,
    suffix: nat,
) -> Result<PatternView, Failure> {
    match generator.empty {
        Err(failure) => Err(failure),
        Ok(fallback_empty) => match generator.unparity {
            Err(failure) => Err(failure),
            Ok(fallback_unparity) => match generator.preamble {
                Err(failure) => Err(failure),
                Ok(preamble) => match generator.postamble {
                    Err(failure) => Err(failure),
                    Ok(postamble) => match gather(core.args@, true) {
                        Err(failure) => Err(failure),
                        Ok(gathered) => match gathered.group {
                            None => Err(Failure::plain(ErrorKind::NonExistentArgument)),
                            Some(size) => match generator.repeat {
                                Err(failure) => Err(failure),
                                Ok(body) => match tokenize_spec(body) {
                                    Err((kind, index)) => Err(Failure::at(kind, body, index)),
                                    Ok(tokens) => Ok(
                                        PatternView {
                                            pattern: tokens,
                                            macro_prefix: common.keyable.prefix@,
                                            index: suffix,
                                            repeats: common.repeat_count(),
                                            group_size: size,
                                            named_arguments: gathered.names,
                                            fallback_empty,
                                            fallback_unparity,
                                            preamble,
                                            postamble,
                                        },
                                    ),
                                },
                            },
                        },
                    },
                },
            },
        },
    }
}

/// The block of a generator: the definitions of its count-specific macros
/// and of its picker.
pub open spec fn repeat_string(
    generator: GeneratorTexts,
    common: Common,
    core: Core,
    suffix: nat,
) -> Result<Seq<char>, Failure> {
    match repeat_pattern(generator, common, core, suffix) {
        Err(failure) => Err(failure),
        Ok(pattern) => Ok(pattern.block()),
    }
}

fn resolved_text(entity: &Preprocessable<String>) -> (result: Result<String, Error>)
    ensures
        match result {
            Ok(text) => final_text(*entity) == Ok::<Seq<char>, Failure>(text@),
            Err(e) => final_text(*entity) == Err::<Seq<char>, Failure>(e@),
        },
{
    match entity {
        Preprocessable::NotPreprocessed(source) => Err(
            Error::at(ErrorKind::NotPreprocessed, source.as_str(), 0),
        ),
        Preprocessable::Preprocessed(text) => Ok(text.clone()),
    }
}

/// Reads all that the expansion of a generator takes from the
/// configuration.
pub fn load_pattern(generator: &Generator, common: &Common, core: &Core, suffix: usize) -> (result:
    Result<GeneratablePattern, Error>)
    ensures
        match result {
            Ok(pattern) => repeat_pattern(generator.texts(), *common, *core, suffix as nat)
                == Ok::<PatternView, Failure>(pattern@),
            Err(e) => repeat_pattern(generator.texts(), *common, *core, suffix as nat) == Err::<
                PatternView,
                Failure,
            >(e@),
        },
{
    let fallback_empty = match resolved_text(&generator.fallbacks.empty) {
        Ok(text) => text,
        Err(e) => {
            return Err(e);
        },
    };
    let fallback_unparity = match resolved_text(&generator.fallbacks.unparity) {
        Ok(text) => text,
        Err(e) => {
            return Err(e);
        },
    };
    let preamble = match resolved_text(&generator.preamble) {
        Ok(text) => text,
        Err(e) => {
            return Err(e);
        },
    };
    let postamble = match resolved_text(&generator.postamble) {
        Ok(text) => text,
        Err(e) => {
            return Err(e);
        },
    };
    let gathered = match gather_arguments(core, true) {
        Ok(gathered) => gathered,
        Err(e) => {
            return Err(e);
        },
    };
    let group_size = match gathered.group_size {
        Some(size) => size,
        None => {
            return Err(Error::new(ErrorKind::NonExistentArgument));
        },
    };
    let body = match resolved_text(&generator.repeat) {
        Ok(text) => text,
        Err(e) => {
            return Err(e);
        },
    };
    let pattern = match CompilerToken::tokenize(body.as_str()) {
        Ok(tokens) => tokens,
        Err(e) => {
            return Err(e);
        },
    };
    Ok(
        GeneratablePattern {
            pattern,
            macro_prefix: common.keyable.prefix.clone(),
            index: suffix,
            repeats: common.clamped_repeats(),
            group_size,
            named_arguments: gathered.names,
            fallback_empty,
            fallback_unparity,
            preamble,
            postamble,
        },
    )
}

/// Writes out the block of a generator: the definitions of its
/// count-specific macros and of its picker.
///
/// The group size must not be zero, and the repeat body must refer to no
/// named argument.
pub fn compile_and_assemble_repeat_string(
    generator: &Generator,
    common: &Common,
    core: &Core,
    suffix: usize,
) -> (result: Result<String, Error>)
    requires
        groupable(*core),
        generator.expandable(),
    ensures
        match result {
            Ok(text) => repeat_string(generator.texts(), *common, *core, suffix as nat) == Ok::<
                Seq<char>,
                Failure,
            >(text@),
            Err(e) => repeat_string(generator.texts(), *common, *core, suffix as nat) == Err::<
                Seq<char>,
                Failure,
            >(e@),
        },
{
    match load_pattern(generator, common, core, suffix) {
        Err(e) => Err(e),
        Ok(pattern) => Ok(pattern.generate()),
    }
}

/// The entry macro of a generator: it hands the named arguments and the
/// trailing arguments on to the macro whose name it is given.
pub open spec fn entry_macro(prefix: Seq<char>, named: Seq<Seq<char>>, suffix: nat) -> Seq<char> {
    "#define "@ + generator_name(prefix, suffix) + seq!['('] + join(named, ", "@)
        + ", __GEN__, ...) __GEN__("@ + join(named, ", "@) + ", __VA_ARGS__)\n"@
}

/// The entry macro of a generator, read from the configuration.
pub open spec fn generator_macro_string(common: Common, core: Core, suffix: nat) -> Result<
    Seq<char>,
    Failure,
> {
    match gather(core.args@, false) {
        Err(failure) => Err(failure),
        Ok(gathered) => Ok(entry_macro(common.keyable.prefix@, gathered.names, suffix)),
    }
}

/// Writes out the entry macro of a generator.
///
/// Fails with `NotPreprocessed` where the name of a named argument is not
/// resolved.
pub fn assemble_generator_macro_string(common: &Common, core: &Core, suffix: usize) -> (result:
    Result<String, Error>)
    ensures
        match result {
            Ok(text) => generator_macro_string(*common, *core, suffix as nat) == Ok::<
                Seq<char>,
                Failure,
            >(text@),
            Err(e) => generator_macro_string(*common, *core, suffix as nat) == Err::<
                Seq<char>,
                Failure,
            >(e@),
        },
{
    let gathered = match gather_arguments(core, false) {
        Ok(gathered) => gathered,
        Err(e) => {
            return Err(e);
        },
    };
    let mut generator_macro = String::new();
    generator_macro.append("#define ");
    generator_macro.append(generate_generator_macro_name(common, suffix).as_str());
    generator_macro.push('(');
    push_joined(&mut generator_macro, &gathered.names, ", ");
    generator_macro.append(", __GEN__, ...) __GEN__(");
    push_joined(&mut generator_macro, &gathered.names, ", ");
    generator_macro.append(", __VA_ARGS__)\n");
    assert(generator_macro@ =~= entry_macro(
        common.keyable.prefix@,
        views(gathered.names@),
        suffix as nat,
    ));
    Ok(generator_macro)
}

/// The part of the outer macro that is for one generator: its entry macro
/// applied to the named arguments, to the macro that its picker selects,
/// and to the trailing arguments.  The picker is applied to the sentinel,
/// the trailing arguments and the candidates.
pub open spec fn dispatch(
    prefix: Seq<char>,
    named: Seq<Seq<char>>,
    repeats: nat,
    generator: nat,
) -> Seq<char> {
    generator_name(prefix, generator) + seq!['('] + join(named, ", "@) + ", "@ + picker_name(
        prefix,
        generator,
    ) + seq!['('] + picker_argument_text(prefix, generator, repeats) + "), __VA_ARGS__) "@
}

/// The parts of the outer macro for the first `count` generators.
pub open spec fn dispatches(
    prefix: Seq<char>,
    named: Seq<Seq<char>>,
    repeats: nat,
    count: nat,
) -> Seq<char>
    decreases count,
{
    if count == 0 {
        Seq::empty()
    } else {
        dispatches(prefix, named, repeats, (count - 1) as nat) + dispatch(
            prefix,
            named,
            repeats,
            (count - 1) as nat,
        )
    }
}

/// The outer macro.
pub open spec fn main_macro(
    xmva: Seq<char>,
    prefix: Seq<char>,
    named: Seq<Seq<char>>,
    repeats: nat,
    count: nat,
) -> Seq<char> {
    "#define "@ + xmva + seq!['('] + join(named, ", "@) + ", ...) "@ + dispatches(
        prefix,
        named,
        repeats,
        count,
    )
}

/// The outer macro, read from the configuration.
pub open spec fn main_macro_string(core: Core, common: Common, generator_count: nat) -> Result<
    Seq<char>,
    Failure,
> {
    match final_text(core.xmva) {
        Err(failure) => Err(failure),
        Ok(xmva) => match gather(core.args@, true) {
            Err(failure) => Err(failure),
            Ok(gathered) => Ok(
                main_macro(
                    xmva,
                    common.keyable.prefix@,
                    gathered.names,
                    common.repeat_count(),
                    generator_count,
                ),
            ),
        },
    }
}

fn push_candidates(out: &mut String, common: &Common, generator: usize)
    ensures
        final(out)@ == old(out)@ + join(
            candidates(common.keyable.prefix@, generator as nat, common.repeat_count()),
            ", "@,
        ),
{
    let repeats = common.clamped_repeats();
    let ghost all = candidates(common.keyable.prefix@, generator as nat, repeats as nat);
    let mut i: usize = 0;
    assert(all.take(0) =~= Seq::<Seq<char>>::empty());
    while i < repeats
        invariant
            0 <= i <= repeats,
            repeats == common.repeat_count(),
            all == candidates(common.keyable.prefix@, generator as nat, repeats as nat),
            out@ == old(out)@ + join(all.take(i as int), ", "@),
        decreases repeats - i,
    {
        proof {
            assert(all.take(i + 1).drop_last() =~= all.take(i as int));
            assert(all.take(i + 1).last() == repeat_name(
                common.keyable.prefix@,
                generator as nat,
                (repeats - 1 - i) as nat,
            ));
        }
        if i > 0 {
            out.append(", ");
        }
        out.append(generate_repeat_name(common, repeats - 1 - i, generator).as_str());
        assert(out@ =~= old(out)@ + join(all.take(i + 1), ", "@));
        i = i + 1;
    }
    assert(all.take(repeats as int) =~= all);
}

fn push_dispatch(out: &mut String, common: &Common, names: &Vec<String>, generator: usize)
    ensures
        final(out)@ == old(out)@ + dispatch(
            common.keyable.prefix@,
            views(names@),
            common.repeat_count(),
            generator as nat,
        ),
{
    let mut text = generate_generator_macro_name(common, generator);
    text.push('(');
    push_joined(&mut text, names, ", ");
    text.append(", ");
    text.append(generate_repeat_picker_macro_name(common, generator).as_str());
    text.push('(');
    let ghost head = text@;
    text.append("\"empty\"");
    text.append(", ");
    text.append("##__VA_ARGS__");
    text.append(", ");
    push_candidates(&mut text, common, generator);
    assert(text@ =~= head + picker_argument_text(
        common.keyable.prefix@,
        generator as nat,
        common.repeat_count(),
    ));
    text.append("), __VA_ARGS__) ");
    assert(text@ =~= dispatch(
        common.keyable.prefix@,
        views(names@),
        common.repeat_count(),
        generator as nat,
    ));
    out.append(text.as_str());
}

/// Writes out the outer macro.
///
/// Fails with `NotPreprocessed` where the name of the macro or of a named
/// argument is not resolved, and with `DuplicateArgument` where the group
/// size is declared twice.
pub fn assemble_main_macro_string(core: &Core, common: &Common, generator_count: usize) -> (result:
    Result<String, Error>)
    ensures
        match result {
            Ok(text) => main_macro_string(*core, *common, generator_count as nat) == Ok::<
                Seq<char>,
                Failure,
            >(text@),
            Err(e) => main_macro_string(*core, *common, generator_count as nat) == Err::<
                Seq<char>,
                Failure,
            >(e@),
        },
{
    let xmva = match resolved_text(&core.xmva) {
        Ok(text) => text,
        Err(e) => {
            return Err(e);
        },
    };
    let gathered = match gather_arguments(core, true) {
        Ok(gathered) => gathered,
        Err(e) => {
            return Err(e);
        },
    };
    let ghost prefix = common.keyable.prefix@;
    let ghost named = views(gathered.names@);
    let ghost repeats = common.repeat_count();
    let mut main_macro_text = String::new();
    main_macro_text.append("#define ");
    main_macro_text.append(xmva.as_str());
    main_macro_text.push('(');
    push_joined(&mut main_macro_text, &gathered.names, ", ");
    main_macro_text.append(", ...) ");
    let ghost head = main_macro_text@;
    let mut i: usize = 0;
    assert(main_macro_text@ =~= head + dispatches(prefix, named, repeats, 0));
    while i < generator_count
        invariant
            0 <= i <= generator_count,
            prefix == common.keyable.prefix@,
            named == views(gathered.names@),
            repeats == common.repeat_count(),
            main_macro_text@ == head + dispatches(prefix, named, repeats, i as nat),
        decreases generator_count - i,
    {
        push_dispatch(&mut main_macro_text, common, &gathered.names, i);
        assert(main_macro_text@ =~= head + dispatches(prefix, named, repeats, (i + 1) as nat));
        i = i + 1;
    }
    assert(main_macro_text@ =~= main_macro(xmva@, prefix, named, repeats, generator_count as nat));
    Ok(main_macro_text)
}

/// The line of one definition of the preamble.  A definition whose name
/// or expansion is not resolved is a failure that names its key.
pub open spec fn definition_line(definition: Definition) -> Result<Seq<char>, Failure> {
    match definition.name.resolved() {
        None => Err(Failure::named(ErrorKind::NotPreprocessed, definition.key@)),
        Some(name) => match definition.expansion.resolved() {
            None => Err(Failure::named(ErrorKind::NotPreprocessed, definition.key@)),
            Some(expansion) => Ok(
                "#define "@ + name + match definition.parameters {
                    Some(parameters) => seq!['('] + join(views(parameters@), ", "@) + seq![')'],
                    None => Seq::empty(),
                } + seq![' '] + expansion + seq!['\n'],
            ),
        },
    }
}

/// One line added to the lines before it.
pub open spec fn definition_lines_step(
    before: Result<Seq<char>, Failure>,
    definition: Definition,
) -> Result<Seq<char>, Failure> {
    match before {
        Err(failure) => Err(failure),
        Ok(text) => match definition_line(definition) {
            Err(failure) => Err(failure),
            Ok(line) => Ok(text + line),
        },
    }
}

/// The lines of the definitions of the preamble, one after the other.
pub open spec fn definition_lines(definitions: Seq<Definition>) -> Result<Seq<char>, Failure>
    decreases definitions.len(),
{
    if definitions.len() == 0 {
        Ok(Seq::empty())
    } else {
        definition_lines_step(definition_lines(definitions.drop_last()), definitions.last())
    }
}

/// Lines that have failed stay as they are however many definitions
/// follow.
pub proof fn lemma_definition_lines_failure(definitions: Seq<Definition>, n: nat)
    requires
        n <= definitions.len(),
        definition_lines(definitions.take(n as int)) is Err,
    ensures
        definition_lines(definitions) == definition_lines(definitions.take(n as int)),
    decreases definitions.len(),
{
    if n == definitions.len() {
        assert(definitions.take(n as int) =~= definitions);
    } else {
        assert(definitions.drop_last().take(n as int) =~= definitions.take(n as int));
        lemma_definition_lines_failure(definitions.drop_last(), n);
    }
}

impl Config {
    /// The raw text of the preamble with the line break behind it; nothing
    /// where there is none.
    pub open spec fn raw_preamble(self) -> Result<Seq<char>, Failure> {
        match self.preamble {
            None => Ok(Seq::empty()),
            Some(preamble) => match preamble.raw {
                None => Ok(Seq::empty()),
                Some(raw) => match final_text(raw) {
                    Err(failure) => Err(failure),
                    Ok(text) => Ok(text + seq!['\n']),
                },
            },
        }
    }

    /// The preamble: the raw text, then the definitions.
    pub open spec fn preamble_text(self) -> Result<Seq<char>, Failure> {
        match self.raw_preamble() {
            Err(failure) => Err(failure),
            Ok(raw) => match self.definition {
                None => Ok(raw),
                Some(definitions) => match definition_lines(definitions@) {
                    Err(failure) => Err(failure),
                    Ok(lines) => Ok(raw + lines),
                },
            },
        }
    }

    /// Writes out the preamble.
    ///
    /// Fails with `NotPreprocessed` where the raw text, or the name or the
    /// expansion of a definition, is not resolved.
    pub fn assemble_preamble(&self) -> (result: Result<String, Error>)
        ensures
            match result {
                Ok(text) => self.preamble_text() == Ok::<Seq<char>, Failure>(text@),
                Err(e) => self.preamble_text() == Err::<Seq<char>, Failure>(e@),
            },
    {
        let mut assembled_preamble = String::new();
        match &self.preamble {
            Some(preamble) => match &preamble.raw {
                Some(raw) => match raw {
                    Preprocessable::NotPreprocessed(source) => {
                        return Err(Error::at(ErrorKind::NotPreprocessed, source.as_str(), 0));
                    },
                    Preprocessable::Preprocessed(text) => {
                        assembled_preamble.append(text.as_str());
                        assembled_preamble.push('\n');
                        assert(assembled_preamble@ =~= text@ + seq!['\n']);
                    },
                },
                None => {},
            },
            None => {},
        }
        assert(self.raw_preamble() == Ok::<Seq<char>, Failure>(assembled_preamble@));
        match &self.definition {
            None => {},
            Some(definitions) => {
                let ghost head = assembled_preamble@;
                let ghost all = definitions@;
                let mut i: usize = 0;
                assert(all.take(0) =~= Seq::<Definition>::empty());
                assert(assembled_preamble@ =~= head + Seq::<char>::empty());
                while i < definitions.len()
                    invariant
                        0 <= i <= definitions@.len(),
                        all == definitions@,
                        self.definition == Some(*definitions),
                        self.raw_preamble() == Ok::<Seq<char>, Failure>(head),
                        definition_lines(all.take(i as int)) is Ok,
                        assembled_preamble@ == head + definition_lines(all.take(i as int))->Ok_0,
                    decreases definitions@.len() - i,
                {
                    let definition = &definitions[i];
                    proof {
                        assert(all.take(i + 1).drop_last() =~= all.take(i as int));
                        assert(all.take(i + 1).last() == all[i as int]);
                        assert(definition_lines(all.take(i + 1)) == definition_lines_step(
                            definition_lines(all.take(i as int)),
                            all[i as int],
                        ));
                    }
                    let ghost before = assembled_preamble@;
                    assembled_preamble.append("#define ");
                    match &definition.name {
                        Preprocessable::NotPreprocessed(_) => {
                            proof {
                                lemma_definition_lines_failure(all, (i + 1) as nat);
                            }
                            return Err(
                                Error::named(ErrorKind::NotPreprocessed, definition.key.as_str()),
                            );
                        },
                        Preprocessable::Preprocessed(name) => {
                            assembled_preamble.append(name.as_str());
                        },
                    }
                    match &definition.parameters {
                        Some(parameters) => {
                            assembled_preamble.push('(');
                            push_joined(&mut assembled_preamble, parameters, ", ");
                            assembled_preamble.push(')');
                        },
                        None => {},
                    }
                    assembled_preamble.push(' ');
                    match &definition.expansion {
                        Preprocessable::NotPreprocessed(_) => {
                            proof {
                                lemma_definition_lines_failure(all, (i + 1) as nat);
                            }
                            return Err(
                                Error::named(ErrorKind::NotPreprocessed, definition.key.as_str()),
                            );
                        },
                        Preprocessable::Preprocessed(expansion) => {
                            assembled_preamble.append(expansion.as_str());
                            assembled_preamble.push('\n');
                        },
                    }
                    assert(assembled_preamble@ =~= before + definition_line(all[i as int])->Ok_0);
                    assert(assembled_preamble@ =~= head + definition_lines(
                        all.take(i + 1),
                    )->Ok_0);
                    i = i + 1;
                }
                assert(all.take(definitions@.len() as int) =~= all);
            },
        }
        Ok(assembled_preamble)
    }
}

/// One of the four texts of a generator that the surface compiler works
/// on: the two fallbacks, the postamble, the preamble.
pub open spec fn surface_string(generator: Generator, which: int) -> Preprocessable<String> {
    if which == 0 {
        generator.fallbacks.empty
    } else if which == 1 {
        generator.fallbacks.unparity
    } else if which == 2 {
        generator.postamble
    } else {
        generator.preamble
    }
}

/// The texts of all generators that the surface compiler works on, four
/// for each generator.  The repeat body is not among them.
pub open spec fn surface_strings(generators: Seq<Generator>) -> Seq<Preprocessable<String>> {
    Seq::new(4 * generators.len(), |k: int| surface_string(generators[k / 4], k % 4))
}

/// The texts of a generator behind the surface compiler.  The repeat body
/// is as it was.
pub open spec fn compiled_texts(
    generator: Generator,
    names: Seq<Seq<char>>,
    texts: Seq<Option<Seq<char>>>,
) -> GeneratorTexts {
    GeneratorTexts {
        empty: surface_compiled(generator.fallbacks.empty, names, texts),
        unparity: surface_compiled(generator.fallbacks.unparity, names, texts),
        preamble: surface_compiled(generator.preamble, names, texts),
        repeat: final_text(generator.repeat),
        postamble: surface_compiled(generator.postamble, names, texts),
    }
}

/// The texts of the generators of a sequence.
pub open spec fn generator_texts(generators: Seq<Generator>) -> Seq<GeneratorTexts> {
    Seq::new(generators.len(), |i: int| generators[i].texts())
}

/// The blocks and the entry macros of the generators.
pub struct Blocks {
    pub repeats: Seq<Seq<char>>,
    pub entries: Seq<Seq<char>>,
}

/// The block and the entry macro of one generator added to those before
/// it.
pub open spec fn blocks_step(
    before: Result<Blocks, Failure>,
    generator: GeneratorTexts,
    common: Common,
    core: Core,
    suffix: nat,
) -> Result<Blocks, Failure> {
    match before {
        Err(failure) => Err(failure),
        Ok(blocks) => match repeat_string(generator, common, core, suffix) {
            Err(failure) => Err(failure),
            Ok(repeat) => match generator_macro_string(common, core, suffix) {
                Err(failure) => Err(failure),
                Ok(entry) => Ok(
                    Blocks {
                        repeats: blocks.repeats.push(repeat),
                        entries: blocks.entries.push(entry),
                    },
                ),
            },
        },
    }
}

/// The blocks and the entry macros of the first `n` generators.
pub open spec fn blocks(
    generators: Seq<GeneratorTexts>,
    common: Common,
    core: Core,
    n: nat,
) -> Result<Blocks, Failure>
    decreases n,
{
    if n == 0 {
        Ok(Blocks { repeats: Seq::empty(), entries: Seq::empty() })
    } else {
        blocks_step(
            blocks(generators, common, core, (n - 1) as nat),
            generators[n - 1],
            common,
            core,
            (n - 1) as nat,
        )
    }
}

/// Blocks that have failed stay as they are however many generators
/// follow.
pub proof fn lemma_blocks_failure(
    generators: Seq<GeneratorTexts>,
    common: Common,
    core: Core,
    n: nat,
    m: nat,
)
    requires
        n <= m,
        blocks(generators, common, core, n) is Err,
    ensures
        blocks(generators, common, core, m) == blocks(generators, common, core, n),
    decreases m,
{
    if n < m {
        lemma_blocks_failure(generators, common, core, n, (m - 1) as nat);
    }
}

/// The whole output: the preamble, an empty line, the blocks, the entry
/// macros, the outer macro.
pub open spec fn output(preamble: Seq<char>, blocks: Blocks, xmva: Seq<char>) -> Seq<char> {
    preamble + seq!['\n'] + join(blocks.repeats, seq!['\n']) + seq!['\n'] + join(
        blocks.entries,
        seq!['\n'],
    ) + seq!['\n'] + xmva
}

impl Config {
    /// Whether the repeat bodies can be expanded: the group size is not
    /// zero, and no repeat body refers to a named argument.
    pub open spec fn expandable(self) -> bool {
        &&& groupable(self.core)
        &&& forall|i: int|
            0 <= i < self.generator@.len() ==> (#[trigger] self.generator@[i]).expandable()
    }

    /// The texts of the generators behind the surface compiler.
    pub open spec fn compiled_generators(self) -> Result<Seq<GeneratorTexts>, Failure> {
        match named_table(self.core.args@) {
            Err(failure) => Err(failure),
            Ok(table) => {
                let strings = surface_strings(self.generator@);
                let outcome = compile_prefix(strings, table.names, table.texts, strings.len());
                match outcome.failure {
                    Some(failure) => Err(failure),
                    None => Ok(
                        Seq::new(
                            self.generator@.len(),
                            |i: int| compiled_texts(self.generator@[i], table.names, table.texts),
                        ),
                    ),
                }
            },
        }
    }

    /// The whole output.
    pub open spec fn assembled(self) -> Result<Seq<char>, Failure> {
        match self.compiled_generators() {
            Err(failure) => Err(failure),
            Ok(generators) => match self.preamble_text() {
                Err(failure) => Err(failure),
                Ok(preamble) => match blocks(
                    generators,
                    self.common,
                    self.core,
                    generators.len(),
                ) {
                    Err(failure) => Err(failure),
                    Ok(blocks) => match main_macro_string(
                        self.core,
                        self.common,
                        generators.len(),
                    ) {
                        Err(failure) => Err(failure),
                        Ok(xmva) => Ok(output(preamble, blocks, xmva)),
                    },
                },
            },
        }
    }

    /// Whether the repeat bodies can be expanded.
    pub fn is_expandable(&self) -> (expandable: bool)
        ensures
            expandable == self.expandable(),
    {
        match gather_arguments(&self.core, true) {
            Ok(gathered) => match gathered.group_size {
                Some(size) => {
                    if size < 1 {
                        return false;
                    }
                },
                None => {},
            },
            Err(_) => {},
        }
        let mut i: usize = 0;
        while i < self.generator.len()
            invariant
                0 <= i <= self.generator@.len(),
                groupable(self.core),
                forall|k: int| 0 <= k < i ==> (#[trigger] self.generator@[k]).expandable(),
            decreases self.generator@.len() - i,
        {
            match &self.generator[i].repeat {
                Preprocessable::Preprocessed(body) => match CompilerToken::tokenize(
                    body.as_str(),
                ) {
                    Ok(tokens) => {
                        if !crate::compiler::repeat::refers_to_no_named_argument(&tokens) {
                            assert(!self.generator@[i as int].expandable());
                            return false;
                        }
                    },
                    Err(_) => {},
                },
                Preprocessable::NotPreprocessed(_) => {},
            }
            i = i + 1;
        }
        true
    }

    /// The texts of all generators that the surface compiler works on.
    pub fn load_surface_compilable_strings(&self) -> (strings: Vec<Preprocessable<String>>)
        ensures
            strings@ == surface_strings(self.generator@),
    {
        let mut compilable_strings: Vec<Preprocessable<String>> = Vec::new();
        let mut i: usize = 0;
        while i < self.generator.len()
            invariant
                0 <= i <= self.generator@.len(),
                compilable_strings@.len() == 4 * i,
                forall|k: int|
                    0 <= k < 4 * i ==> (#[trigger] compilable_strings@[k]) == surface_string(
                        self.generator@[k / 4],
                        k % 4,
                    ),
            decreases self.generator@.len() - i,
        {
            let generator = &self.generator[i];
            compilable_strings.push(generator.fallbacks.empty.duplicate());
            compilable_strings.push(generator.fallbacks.unparity.duplicate());
            compilable_strings.push(generator.postamble.duplicate());
            compilable_strings.push(generator.preamble.duplicate());
            i = i + 1;
        }
        assert(compilable_strings@ =~= surface_strings(self.generator@));
        compilable_strings
    }

    /// Runs the surface compiler on the texts of every generator but its
    /// repeat body.
    ///
    /// Fails with `DuplicateArgument` where two named arguments share a
    /// key; otherwise with the failure of the first text that the surface
    /// compiler fails on, in the order of the generators and, for each, of
    /// the two fallbacks, the postamble and the preamble.
    pub fn compile(&self) -> (result: Result<Vec<Generator>, Error>)
        ensures
            match result {
                Ok(generators) => self.compiled_generators() == Ok::<
                    Seq<GeneratorTexts>,
                    Failure,
                >(generator_texts(generators@)),
                Err(e) => self.compiled_generators() == Err::<Seq<GeneratorTexts>, Failure>(e@),
            },
    {
        let named = match self.load_named_arguments() {
            Ok(named) => named,
            Err(e) => {
                return Err(e);
            },
        };
        let mut compilable_strings = self.load_surface_compilable_strings();
        let ghost before = compilable_strings@;
        let ghost names = named.names();
        let ghost texts = named.texts();
        match compile_surface_strings(&mut compilable_strings, &named) {
            Ok(()) => {},
            Err(e) => {
                return Err(e);
            },
        }
        let mut generators: Vec<Generator> = Vec::new();
        let total = compilable_strings.len();
        let mut i: usize = 0;
        while i < self.generator.len()
            invariant
                0 <= i <= self.generator@.len(),
                total == 4 * self.generator@.len(),
                generators@.len() == i,
                before == surface_strings(self.generator@),
                compilable_strings@.len() == 4 * self.generator@.len(),
                compiled(before, compilable_strings@, names, texts, before.len()),
                forall|k: int|
                    0 <= k < i ==> (#[trigger] generators@[k]).texts() == compiled_texts(
                        self.generator@[k],
                        names,
                        texts,
                    ),
            decreases self.generator@.len() - i,
        {
            let empty = compilable_strings[4 * i].duplicate();
            let unparity = compilable_strings[4 * i + 1].duplicate();
            let postamble = compilable_strings[4 * i + 2].duplicate();
            let preamble = compilable_strings[4 * i + 3].duplicate();
            let repeat = self.generator[i].repeat.duplicate();
            proof {
                assert(before[4 * i] == surface_string(self.generator@[i as int], 0));
                assert(before[4 * i + 1] == surface_string(self.generator@[i as int], 1));
                assert(before[4 * i + 2] == surface_string(self.generator@[i as int], 2));
                assert(before[4 * i + 3] == surface_string(self.generator@[i as int], 3));
            }
            generators.push(
                Generator { fallbacks: Fallbacks { unparity, empty }, preamble, repeat, postamble },
            );
            i = i + 1;
        }
        assert(generator_texts(generators@) =~= Seq::new(
            self.generator@.len(),
            |i: int| compiled_texts(self.generator@[i], names, texts),
        ));
        Ok(generators)
    }

    /// Compiles the configuration and writes out the whole output.
    ///
    /// The group size must not be zero, and no repeat body may refer to a
    /// named argument.  The stages run one after the other, and the first
    /// failure is the result: the surface compiler, the preamble, then for
    /// each generator its block and its entry macro, then the outer macro.
    pub fn compile_and_assemble(&self) -> (result: Result<String, Error>)
        requires
            self.expandable(),
        ensures
            match result {
                Ok(text) => self.assembled() == Ok::<Seq<char>, Failure>(text@),
                Err(e) => self.assembled() == Err::<Seq<char>, Failure>(e@),
            },
    {
        let compiled_generators = match self.compile() {
            Ok(generators) => generators,
            Err(e) => {
                return Err(e);
            },
        };
        let preamble = match self.assemble_preamble() {
            Ok(preamble) => preamble,
            Err(e) => {
                return Err(e);
            },
        };
        let ghost all = generator_texts(compiled_generators@);
        let mut repeats: Vec<String> = Vec::new();
        let mut generators: Vec<String> = Vec::new();
        let mut i: usize = 0;
        assert(views(repeats@) =~= Seq::<Seq<char>>::empty());
        assert(views(generators@) =~= Seq::<Seq<char>>::empty());
        while i < compiled_generators.len()
            invariant
                0 <= i <= compiled_generators@.len(),
                self.expandable(),
                all == generator_texts(compiled_generators@),
                self.compiled_generators() == Ok::<Seq<GeneratorTexts>, Failure>(all),
                self.preamble_text() == Ok::<Seq<char>, Failure>(preamble@),
                blocks(all, self.common, self.core, i as nat) == Ok::<Blocks, Failure>(
                    Blocks { repeats: views(repeats@), entries: views(generators@) },
                ),
            decreases compiled_generators@.len() - i,
        {
            let ghost repeats_before = views(repeats@);
            let ghost entries_before = views(generators@);
            proof {
                assert(all[i as int] == compiled_generators@[i as int].texts());
                assert(self.generator@[i as int].expandable());
                assert(blocks(all, self.common, self.core, (i + 1) as nat) == blocks_step(
                    blocks(all, self.common, self.core, i as nat),
                    all[i as int],
                    self.common,
                    self.core,
                    i as nat,
                ));
            }
            match compile_and_assemble_repeat_string(
                &compiled_generators[i],
                &self.common,
                &self.core,
                i,
            ) {
                Ok(repeat) => {
                    repeats.push(repeat);
                    assert(views(repeats@) =~= repeats_before.push(repeat@));
                },
                Err(e) => {
                    proof {
                        lemma_blocks_failure(
                            all,
                            self.common,
                            self.core,
                            (i + 1) as nat,
                            all.len(),
                        );
                    }
                    return Err(e);
                },
            }
            match assemble_generator_macro_string(&self.common, &self.core, i) {
                Ok(entry) => {
                    generators.push(entry);
                    assert(views(generators@) =~= entries_before.push(entry@));
                },
                Err(e) => {
                    proof {
                        lemma_blocks_failure(
                            all,
                            self.common,
                            self.core,
                            (i + 1) as nat,
                            all.len(),
                        );
                    }
                    return Err(e);
                },
            }
            i = i + 1;
        }
        let xmva = match assemble_main_macro_string(
            &self.core,
            &self.common,
            compiled_generators.len(),
        ) {
            Ok(xmva) => xmva,
            Err(e) => {
                return Err(e);
            },
        };
        let mut file = preamble;
        file.push('\n');
        push_joined(&mut file, &repeats, "\n");
        file.push('\n');
        push_joined(&mut file, &generators, "\n");
        file.push('\n');
        file.append(xmva.as_str());
        proof {
            reveal_strlit("\n");
            assert("\n"@ =~= seq!['\n']);
            assert(file@ =~= output(
                preamble@,
                Blocks { repeats: views(repeats@), entries: views(generators@) },
                xmva@,
            ));
        }
        Ok(file)
    }
}

} // verus!
