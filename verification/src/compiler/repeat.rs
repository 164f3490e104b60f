//! The repeat expander: one macro for each number of trailing arguments,
//! and the picker that selects among them.

use vstd::prelude::*;

use crate::compiler::token::{token_views, CompilerToken, TemplateToken};
use crate::config::Common;
use crate::text::{decimal, join, push_decimal, push_joined, views};

verus! {

/// The name of a placeholder parameter.
pub open spec fn placeholder(slot: nat) -> Seq<char> {
    "__"@ + decimal(slot) + "__"@
}

/// The names of the first `count` placeholder parameters.
pub open spec fn placeholders(count: nat) -> Seq<Seq<char>> {
    Seq::new(count, |i: int| placeholder(i as nat))
}

/// The name of the macro of generator `generator` for `count` trailing
/// arguments.
pub open spec fn repeat_name(prefix: Seq<char>, generator: nat, count: nat) -> Seq<char> {
    prefix + "__ARGS__"@ + decimal(generator) + seq!['_'] + decimal(count)
}

/// The name of the picker of generator `generator`.
pub open spec fn picker_name(prefix: Seq<char>, generator: nat) -> Seq<char> {
    prefix + "__ARGS__"@ + decimal(generator)
}

/// The name of the entry macro of generator `generator`.
pub open spec fn generator_name(prefix: Seq<char>, generator: nat) -> Seq<char> {
    prefix + "__GENERATOR__"@ + decimal(generator)
}

/// One token of the repeat body in group `i` of `j` groups of `size`
/// arguments each.
pub open spec fn expand_token(token: TemplateToken, i: nat, j: nat, size: nat) -> Seq<char> {
    match token {
        TemplateToken::Raw(text) => text,
        TemplateToken::Position => decimal(i + 1),
        TemplateToken::UnamedArgumentRef(index) => placeholder(index + i * size),
        TemplateToken::SkipLast(text) => if i + 1 == j {
            Seq::empty()
        } else {
            text
        },
        TemplateToken::NamedArgumentRef(_) => Seq::empty(),
    }
}

/// The repeat body in group `i` of `j` groups.
pub open spec fn expand_tokens(tokens: Seq<TemplateToken>, i: nat, j: nat, size: nat) -> Seq<char>
    decreases tokens.len(),
{
    if tokens.len() == 0 {
        Seq::empty()
    } else {
        expand_tokens(tokens.drop_last(), i, j, size) + expand_token(tokens.last(), i, j, size)
    }
}

/// The repeat body in the first `k` of `j` groups, one after the other.
pub open spec fn expand_groups(tokens: Seq<TemplateToken>, j: nat, size: nat, k: nat) -> Seq<char>
    decreases k,
{
    if k == 0 {
        Seq::empty()
    } else {
        expand_groups(tokens, j, size, (k - 1) as nat) + expand_tokens(
            tokens,
            (k - 1) as nat,
            j,
            size,
        )
    }
}

/// Whether a token is no reference to a named argument.
pub open spec fn unnamed(token: TemplateToken) -> bool {
    !(token is NamedArgumentRef)
}

/// Whether no token is a reference to a named argument.
pub open spec fn all_unnamed(tokens: Seq<TemplateToken>) -> bool {
    forall|i: int| 0 <= i < tokens.len() ==> unnamed(#[trigger] tokens[i])
}

/// All that the expansion of one repeat body takes.
#[derive(Debug, Clone, PartialEq, Eq)]
pub struct GeneratablePattern {
    /// The tokens of the repeat body.
    pub pattern: Vec<CompilerToken>,
    /// What every generated name begins with.
    pub macro_prefix: String,
    /// The place of the generator among the generators.
    pub index: usize,
    /// How many count-specific macros are generated.
    pub repeats: usize,
    /// How many trailing arguments make one group.
    pub group_size: usize,
    /// The names of the named arguments, in their order.
    pub named_arguments: Vec<String>,
    /// The body for no trailing argument.
    pub fallback_empty: String,
    /// The body for a count that is no multiple of the group size.
    pub fallback_unparity: String,
    /// What stands before the groups.
    pub preamble: String,
    /// What stands behind the groups.
    pub postamble: String,
}

/// The body of the macro for `count` trailing arguments.
pub open spec fn repeat_body(
    tokens: Seq<TemplateToken>,
    size: nat,
    fallback_empty: Seq<char>,
    fallback_unparity: Seq<char>,
    preamble: Seq<char>,
    postamble: Seq<char>,
    count: nat,
) -> Seq<char> {
    if count == 0 {
        fallback_empty
    } else if count % size != 0 {
        fallback_unparity
    } else {
        preamble + expand_groups(tokens, count / size, size, count / size) + postamble
    }
}

/// The parameters of the macro for `count` trailing arguments: the named
/// arguments, then one placeholder for each trailing argument.
pub open spec fn repeat_parameters(named: Seq<Seq<char>>, count: nat) -> Seq<char> {
    if count == 0 {
        join(named, ", "@)
    } else {
        join(named, ", "@) + ", "@ + join(placeholders(count), ", "@)
    }
}

/// The parameters of a picker as they are written: one placeholder for
/// each count-specific macro, the slot that the picker expands to, and
/// the capture of whatever follows.
pub open spec fn picker_parameter_text(repeats: nat) -> Seq<char> {
    join(placeholders(repeats), ", "@) + ", "@ + "__NAME__"@ + ", "@ + "..."@
}

/// The parameters of a picker.
pub open spec fn picker_parameters(repeats: nat) -> Seq<Seq<char>> {
    placeholders(repeats).push("__NAME__"@).push("..."@)
}

/// The names of the count-specific macros of a generator, the one for the
/// largest count first.
pub open spec fn candidates(prefix: Seq<char>, generator: nat, repeats: nat) -> Seq<Seq<char>> {
    Seq::new(repeats, |i: int| repeat_name(prefix, generator, (repeats - 1 - i) as nat))
}

/// The arguments of a picker as the outer macro writes them: the
/// sentinel, the trailing arguments of the caller, and the candidates.
pub open spec fn picker_argument_text(prefix: Seq<char>, generator: nat, repeats: nat) -> Seq<
    char,
> {
    "\"empty\""@ + ", "@ + "##__VA_ARGS__"@ + ", "@ + join(
        candidates(prefix, generator, repeats),
        ", "@,
    )
}

/// The arguments that a picker is applied to when the caller of the outer
/// macro supplies the given trailing arguments.
pub open spec fn picker_arguments(
    prefix: Seq<char>,
    generator: nat,
    repeats: nat,
    trailing: Seq<Seq<char>>,
) -> Seq<Seq<char>> {
    seq!["\"empty\""@] + trailing + candidates(prefix, generator, repeats)
}

/// A list with one more text is written as the list, the separator, and
/// the text.
pub proof fn lemma_join_push(parts: Seq<Seq<char>>, last: Seq<char>, separator: Seq<char>)
    requires
        parts.len() >= 1,
    ensures
        join(parts.push(last), separator) == join(parts, separator) + separator + last,
{
    assert(parts.push(last).drop_last() =~= parts);
}

/// A list behind one text is written as the text, the separator, and the
/// list.
pub proof fn lemma_join_front(first: Seq<char>, parts: Seq<Seq<char>>, separator: Seq<char>)
    requires
        parts.len() >= 1,
    ensures
        join(seq![first] + parts, separator) == first + separator + join(parts, separator),
    decreases parts.len(),
{
    let whole = seq![first] + parts;
    if parts.len() == 1 {
        assert(whole.drop_last() =~= seq![first]);
        assert(whole.last() == parts[0]);
        assert(seq![first][0] == first);
        assert(join(seq![first], separator) == first);
        assert(join(parts, separator) == parts[0]);
        assert(join(whole, separator) == join(whole.drop_last(), separator) + separator
            + whole.last());
    } else {
        lemma_join_front(first, parts.drop_last(), separator);
        assert(whole.drop_last() =~= seq![first] + parts.drop_last());
        assert(whole.last() == parts.last());
        assert(join(whole, separator) =~= first + separator + join(parts, separator));
    }
}

/// The parameters of a picker are written with a comma and a space
/// between each two.
pub proof fn lemma_picker_parameter_text(repeats: nat)
    requires
        repeats >= 1,
    ensures
        picker_parameter_text(repeats) == join(picker_parameters(repeats), ", "@),
{
    let slots = placeholders(repeats);
    lemma_join_push(slots, "__NAME__"@, ", "@);
    lemma_join_push(slots.push("__NAME__"@), "..."@, ", "@);
}

/// The arguments of a picker are written with a comma and a space between
/// each two, the trailing arguments of the caller standing where
/// `##__VA_ARGS__` is written.
pub proof fn lemma_picker_argument_text(prefix: Seq<char>, generator: nat, repeats: nat)
    requires
        repeats >= 1,
    ensures
        picker_argument_text(prefix, generator, repeats) == join(
            picker_arguments(prefix, generator, repeats, seq!["##__VA_ARGS__"@]),
            ", "@,
        ),
{
    let names = candidates(prefix, generator, repeats);
    lemma_join_front("##__VA_ARGS__"@, names, ", "@);
    lemma_join_front("\"empty\""@, seq!["##__VA_ARGS__"@] + names, ", "@);
    assert(picker_arguments(prefix, generator, repeats, seq!["##__VA_ARGS__"@]) =~= seq![
        "\"empty\""@,
    ] + (seq!["##__VA_ARGS__"@] + names));
    assert(picker_argument_text(prefix, generator, repeats) =~= join(
        picker_arguments(prefix, generator, repeats, seq!["##__VA_ARGS__"@]),
        ", "@,
    ));
}

/// The outer macro dispatches on the number of trailing arguments.
///
/// The picker expands to the parameter behind its placeholders.  When the
/// caller supplies fewer trailing arguments than there are count-specific
/// macros, the argument that is bound to that parameter is the name of the
/// macro for exactly that many arguments.
pub proof fn lemma_picker_selects(
    prefix: Seq<char>,
    generator: nat,
    repeats: nat,
    trailing: Seq<Seq<char>>,
)
    requires
        trailing.len() < repeats,
    ensures
        picker_parameters(repeats)[repeats as int] == "__NAME__"@,
        picker_arguments(prefix, generator, repeats, trailing)[repeats as int] == repeat_name(
            prefix,
            generator,
            trailing.len(),
        ),
{
}

/// What a pattern means.
pub struct PatternView {
    pub pattern: Seq<TemplateToken>,
    pub macro_prefix: Seq<char>,
    pub index: nat,
    pub repeats: nat,
    pub group_size: nat,
    pub named_arguments: Seq<Seq<char>>,
    pub fallback_empty: Seq<char>,
    pub fallback_unparity: Seq<char>,
    pub preamble: Seq<char>,
    pub postamble: Seq<char>,
}

impl PatternView {
    /// Whether the pattern can be expanded: the group size is not zero and
    /// the repeat body refers to no named argument.
    pub open spec fn wf(self) -> bool {
        &&& self.group_size >= 1
        &&& all_unnamed(self.pattern)
    }

    /// The body of the macro for `count` trailing arguments.
    pub open spec fn body(self, count: nat) -> Seq<char> {
        repeat_body(
            self.pattern,
            self.group_size,
            self.fallback_empty,
            self.fallback_unparity,
            self.preamble,
            self.postamble,
            count,
        )
    }

    /// The definition of the macro for `count` trailing arguments.
    pub open spec fn definition(self, count: nat) -> Seq<char> {
        "#define "@ + repeat_name(self.macro_prefix, self.index, count) + seq!['(']
            + repeat_parameters(self.named_arguments, count) + seq![')', ' '] + self.body(count)
            + seq!['\n']
    }

    /// The definitions of the macros for less than `count` trailing
    /// arguments, one after the other.
    pub open spec fn definitions(self, count: nat) -> Seq<char>
        decreases count,
    {
        if count == 0 {
            Seq::empty()
        } else {
            self.definitions((count - 1) as nat) + self.definition((count - 1) as nat)
        }
    }

    /// The definition of the picker: one placeholder for each
    /// count-specific macro, then the slot that the picker expands to,
    /// then whatever follows.
    pub open spec fn picker(self) -> Seq<char> {
        "#define "@ + picker_name(self.macro_prefix, self.index) + seq!['(']
            + picker_parameter_text(self.repeats) + seq![')', ' '] + "__NAME__"@
    }

    /// All that the generator defines.
    pub open spec fn block(self) -> Seq<char> {
        self.definitions(self.repeats) + self.picker()
    }
}

impl View for GeneratablePattern {
    type V = PatternView;

    open spec fn view(&self) -> PatternView {
        PatternView {
            pattern: token_views(self.pattern@),
            macro_prefix: self.macro_prefix@,
            index: self.index as nat,
            repeats: self.repeats as nat,
            group_size: self.group_size as nat,
            named_arguments: views(self.named_arguments@),
            fallback_empty: self.fallback_empty@,
            fallback_unparity: self.fallback_unparity@,
            preamble: self.preamble@,
            postamble: self.postamble@,
        }
    }
}

impl GeneratablePattern {
    /// Whether the pattern can be expanded.
    pub fn is_wf(&self) -> (wf: bool)
        ensures
            wf == self@.wf(),
    {
        self.group_size >= 1 && refers_to_no_named_argument(&self.pattern)
    }

    /// Writes out the definitions of all count-specific macros and of the
    /// picker.
    pub fn generate(&self) -> (text: String)
        requires
            self@.wf(),
        ensures
            text@ == self@.block(),
    {
        let mut text = String::new();
        let mut count: usize = 0;
        while count < self.repeats
            invariant
                0 <= count <= self.repeats,
                self@.wf(),
                text@ == self@.definitions(count as nat),
            decreases self.repeats - count,
        {
            self.push_definition(&mut text, count);
            count = count + 1;
        }
        text.append("#define ");
        push_repeat_picker_macro_name(&mut text, self.macro_prefix.as_str(), self.index);
        text.push('(');
        push_placeholders(&mut text, self.repeats);
        text.append(", ");
        text.append("__NAME__");
        text.append(", ");
        text.append("...");
        text.push(')');
        text.push(' ');
        text.append("__NAME__");
        assert(text@ =~= self@.block());
        text
    }

    fn push_definition(&self, out: &mut String, count: usize)
        requires
            self@.wf(),
        ensures
            final(out)@ == old(out)@ + self@.definition(count as nat),
    {
        out.append("#define ");
        push_repeat_name(out, self.macro_prefix.as_str(), count, self.index);
        out.push('(');
        push_joined(out, &self.named_arguments, ", ");
        if count > 0 {
            out.append(", ");
            push_placeholders(out, count);
        }
        out.push(')');
        out.push(' ');
        let ghost head = out@;
        self.push_body(out, count);
        out.push('\n');
        assert(out@ =~= old(out)@ + self@.definition(count as nat));
    }

    fn push_body(&self, out: &mut String, count: usize)
        requires
            self@.wf(),
        ensures
            final(out)@ == old(out)@ + self@.body(count as nat),
    {
        if count == 0 {
            out.append(self.fallback_empty.as_str());
        } else if count % self.group_size != 0 {
            out.append(self.fallback_unparity.as_str());
        } else {
            out.append(self.preamble.as_str());
            let groups = count / self.group_size;
            let ghost tokens = token_views(self.pattern@);
            let ghost head = out@;
            let mut i: usize = 0;
            while i < groups
                invariant
                    0 <= i <= groups,
                    self@.wf(),
                    groups == count / self.group_size,
                    count % self.group_size == 0,
                    count > 0,
                    tokens == token_views(self.pattern@),
                    out@ == head + expand_groups(
                        tokens,
                        groups as nat,
                        self.group_size as nat,
                        i as nat,
                    ),
                decreases groups - i,
            {
                proof {
                    lemma_group_bounds(count as nat, self.group_size as nat, i as nat);
                }
                self.push_group(out, i, groups);
                assert(out@ =~= head + expand_groups(
                    tokens,
                    groups as nat,
                    self.group_size as nat,
                    (i + 1) as nat,
                ));
                i = i + 1;
            }
            out.append(self.postamble.as_str());
            assert(out@ =~= old(out)@ + self@.body(count as nat));
        }
    }

    fn push_group(&self, out: &mut String, i: usize, groups: usize)
        requires
            i < groups,
            i * self.group_size <= usize::MAX,
        ensures
            final(out)@ == old(out)@ + expand_tokens(
                token_views(self.pattern@),
                i as nat,
                groups as nat,
                self.group_size as nat,
            ),
    {
        let ghost tokens = token_views(self.pattern@);
        let offset: usize = i * self.group_size;
        let mut k: usize = 0;
        assert(tokens.take(0) =~= Seq::<TemplateToken>::empty());
        while k < self.pattern.len()
            invariant
                0 <= k <= self.pattern@.len(),
                i < groups,
                offset == i * self.group_size,
                tokens == token_views(self.pattern@),
                out@ == old(out)@ + expand_tokens(
                    tokens.take(k as int),
                    i as nat,
                    groups as nat,
                    self.group_size as nat,
                ),
            decreases self.pattern@.len() - k,
        {
            proof {
                assert(tokens.take(k + 1).drop_last() =~= tokens.take(k as int));
                assert(tokens.take(k + 1).last() == self.pattern@[k as int]@);
            }
            match &self.pattern[k] {
                CompilerToken::Raw(text) => {
                    out.append(text.as_str());
                },
                CompilerToken::Position => {
                    push_decimal(out, i as u128 + 1);
                },
                CompilerToken::UnamedArgumentRef(index) => {
                    push_placeholder(out, *index as u128 + offset as u128);
                },
                CompilerToken::SkipLast(text) => {
                    if groups - 1 != i {
                        out.append(text.as_str());
                    }
                },
                CompilerToken::NamedArgumentRef(_) => {},
            }
            assert(out@ =~= old(out)@ + expand_tokens(
                tokens.take(k + 1),
                i as nat,
                groups as nat,
                self.group_size as nat,
            ));
            k = k + 1;
        }
        assert(tokens.take(self.pattern@.len() as int) =~= tokens);
    }
}

/// Whether no token is a reference to a named argument.
pub fn refers_to_no_named_argument(tokens: &Vec<CompilerToken>) -> (none: bool)
    ensures
        none == all_unnamed(token_views(tokens@)),
{
    let ghost all = token_views(tokens@);
    let mut i: usize = 0;
    while i < tokens.len()
        invariant
            0 <= i <= tokens@.len(),
            all == token_views(tokens@),
            forall|k: int| 0 <= k < i ==> unnamed(#[trigger] all[k]),
        decreases tokens@.len() - i,
    {
        match &tokens[i] {
            CompilerToken::NamedArgumentRef(_) => {
                assert(!unnamed(all[i as int]));
                return false;
            },
            _ => {},
        }
        i = i + 1;
    }
    true
}

proof fn lemma_group_bounds(count: nat, size: nat, i: nat)
    requires
        size >= 1,
        count % size == 0,
        i < count / size,
    ensures
        i * size <= count,
{
    assert(i * size <= count) by (nonlinear_arith)
        requires
            size >= 1,
            count % size == 0,
            i < count / size,
    ;
}

/// Appends the name of a placeholder parameter.
pub fn push_placeholder(out: &mut String, slot: u128)
    ensures
        final(out)@ == old(out)@ + placeholder(slot as nat),
{
    out.append("__");
    push_decimal(out, slot);
    out.append("__");
    assert(out@ =~= old(out)@ + placeholder(slot as nat));
}

/// Appends the names of the first `count` placeholder parameters, with a
/// comma and a space between each two.
pub fn push_placeholders(out: &mut String, count: usize)
    ensures
        final(out)@ == old(out)@ + join(placeholders(count as nat), ", "@),
{
    let ghost all = placeholders(count as nat);
    let mut i: usize = 0;
    assert(all.take(0) =~= Seq::<Seq<char>>::empty());
    while i < count
        invariant
            0 <= i <= count,
            all == placeholders(count as nat),
            out@ == old(out)@ + join(all.take(i as int), ", "@),
        decreases count - i,
    {
        proof {
            assert(all.take(i + 1).drop_last() =~= all.take(i as int));
            assert(all.take(i + 1).last() == placeholder(i as nat));
        }
        if i > 0 {
            out.append(", ");
        }
        push_placeholder(out, i as u128);
        assert(out@ =~= old(out)@ + join(all.take(i + 1), ", "@));
        i = i + 1;
    }
    assert(all.take(count as int) =~= all);
}

fn push_repeat_name(out: &mut String, prefix: &str, n: usize, suffix: usize)
    ensures
        final(out)@ == old(out)@ + repeat_name(prefix@, suffix as nat, n as nat),
{
    out.append(prefix);
    out.append("__ARGS__");
    push_decimal(out, suffix as u128);
    out.push('_');
    push_decimal(out, n as u128);
    assert(out@ =~= old(out)@ + repeat_name(prefix@, suffix as nat, n as nat));
}

fn push_repeat_picker_macro_name(out: &mut String, prefix: &str, suffix: usize)
    ensures
        final(out)@ == old(out)@ + picker_name(prefix@, suffix as nat),
{
    out.append(prefix);
    out.append("__ARGS__");
    push_decimal(out, suffix as u128);
    assert(out@ =~= old(out)@ + picker_name(prefix@, suffix as nat));
}

fn push_generator_macro_name(out: &mut String, prefix: &str, suffix: usize)
    ensures
        final(out)@ == old(out)@ + generator_name(prefix@, suffix as nat),
{
    out.append(prefix);
    out.append("__GENERATOR__");
    push_decimal(out, suffix as u128);
    assert(out@ =~= old(out)@ + generator_name(prefix@, suffix as nat));
}

/// The name of the macro of a generator for `n` trailing arguments.
pub fn generate_repeat_name(common: &Common, n: usize, suffix: usize) -> (name: String)
    ensures
        name@ == repeat_name(common.keyable.prefix@, suffix as nat, n as nat),
{
    let mut name = String::new();
    push_repeat_name(&mut name, common.keyable.prefix.as_str(), n, suffix);
    assert(name@ =~= repeat_name(common.keyable.prefix@, suffix as nat, n as nat));
    name
}

/// The name of the picker of a generator.
pub fn generate_repeat_picker_macro_name(common: &Common, suffix: usize) -> (name: String)
    ensures
        name@ == picker_name(common.keyable.prefix@, suffix as nat),
{
    let mut name = String::new();
    push_repeat_picker_macro_name(&mut name, common.keyable.prefix.as_str(), suffix);
    assert(name@ =~= picker_name(common.keyable.prefix@, suffix as nat));
    name
}

/// The name of the entry macro of a generator.
pub fn generate_generator_macro_name(common: &Common, suffix: usize) -> (name: String)
    ensures
        name@ == generator_name(common.keyable.prefix@, suffix as nat),
{
    let mut name = String::new();
    push_generator_macro_name(&mut name, common.keyable.prefix.as_str(), suffix);
    assert(name@ =~= generator_name(common.keyable.prefix@, suffix as nat));
    name
}

} // verus!
