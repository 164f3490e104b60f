//! The configuration that the two stages work on.

use vstd::prelude::*;

use crate::preprocessor::Preprocessable;

verus! {

/// The ceiling on the number of count-specific macros of one generator.
pub const MAX_REPEATS: usize = 1000;

/// The global settings that strings may refer to by the name of the field.
#[derive(Debug, Clone, PartialEq, Eq)]
pub struct CommonKeyable {
    pub prefix: String,
}

/// The global settings.
#[derive(Debug, Clone, PartialEq, Eq)]
pub struct Common {
    pub keyable: CommonKeyable,
    /// How many count-specific macros each generator gets, before the
    /// ceiling is applied.
    pub repeats: usize,
}

impl Common {
    /// The number of count-specific macros of each generator.
    pub open spec fn repeat_count(self) -> nat {
        if self.repeats <= MAX_REPEATS {
            self.repeats as nat
        } else {
            MAX_REPEATS as nat
        }
    }

    /// The configured repeat count, clamped to the ceiling.
    pub fn clamped_repeats(&self) -> (count: usize)
        ensures
            count == self.repeat_count(),
            count <= MAX_REPEATS,
    {
        if self.repeats <= MAX_REPEATS {
            self.repeats
        } else {
            MAX_REPEATS
        }
    }
}

/// What the author of a name asks for.
#[derive(Debug, Clone, Copy, PartialEq, Eq, Structural)]
pub enum Tag {
    /// The name stands without the prefix.
    NoPrefix,
}

/// What is done to a name.
#[derive(Debug, Clone, Copy, PartialEq, Eq, Structural)]
pub enum Todo {
    /// The prefix is put before the name.
    ApplyPrefix,
}

impl Todo {
    /// What is done to a name that carries no tag.
    pub open spec fn preset_list() -> Seq<Todo> {
        seq![Todo::ApplyPrefix]
    }

    /// What is done to a name that carries the given tags: the presets
    /// without those that a tag takes out.
    pub open spec fn list_of(tags: Seq<Tag>) -> Seq<Todo> {
        if tags.contains(Tag::NoPrefix) {
            Seq::empty()
        } else {
            Self::preset_list()
        }
    }

    /// The text with this done to it.
    pub open spec fn effect(self, text: Seq<char>, prefix: Seq<char>) -> Seq<char> {
        match self {
            Todo::ApplyPrefix => prefix + text,
        }
    }

    /// The text with everything of the list done to it, in the order of
    /// the list.
    pub open spec fn effects(todos: Seq<Todo>, text: Seq<char>, prefix: Seq<char>) -> Seq<char>
        decreases todos.len(),
    {
        if todos.len() == 0 {
            text
        } else {
            todos.last().effect(Self::effects(todos.drop_last(), text, prefix), prefix)
        }
    }

    /// What is done to a name that carries no tag.
    pub fn presets() -> (todos: Vec<Todo>)
        ensures
            todos@ == Self::preset_list(),
    {
        let mut todos: Vec<Todo> = Vec::new();
        todos.push(Todo::ApplyPrefix);
        assert(todos@ =~= Self::preset_list());
        todos
    }

    fn without(todos: Vec<Todo>, unwanted: Todo) -> (kept: Vec<Todo>)
        ensures
            kept@ == todos@.filter(|item: Todo| item != unwanted),
    {
        let mut kept: Vec<Todo> = Vec::new();
        let mut i: usize = 0;
        assert(todos@.take(0) =~= Seq::<Todo>::empty());
        while i < todos.len()
            invariant
                0 <= i <= todos.len(),
                kept@ == todos@.take(i as int).filter(|item: Todo| item != unwanted),
            decreases todos.len() - i,
        {
            proof {
                assert(todos@.take(i + 1).drop_last() =~= todos@.take(i as int));
                reveal(Seq::filter);
            }
            if todos[i] != unwanted {
                kept.push(todos[i]);
            }
            i = i + 1;
        }
        assert(todos@.take(todos.len() as int) =~= todos@);
        kept
    }

    /// What is done to a name that carries the given tags.
    pub fn from_tags_with_presets(tags: &Vec<Tag>) -> (todos: Vec<Todo>)
        ensures
            todos@ == Self::list_of(tags@),
    {
        let mut todos = Todo::presets();
        let mut i: usize = 0;
        assert(tags@.take(0) =~= Seq::<Tag>::empty());
        while i < tags.len()
            invariant
                0 <= i <= tags.len(),
                todos@ == Self::list_of(tags@.take(i as int)),
            decreases tags.len() - i,
        {
            let ghost before = tags@.take(i as int);
            let ghost after = tags@.take(i + 1);
            match tags[i] {
                Tag::NoPrefix => {
                    todos = Todo::without(todos, Todo::ApplyPrefix);
                    proof {
                        reveal_with_fuel(Seq::filter, 3);
                        assert(after[i as int] == Tag::NoPrefix);
                        assert(seq![Todo::ApplyPrefix].drop_last() =~= Seq::<Todo>::empty());
                        assert(todos@ =~= Seq::<Todo>::empty());
                    }
                },
            }
            i = i + 1;
        }
        assert(tags@.take(tags.len() as int) =~= tags@);
        todos
    }
}

/// A name with the tags of its author.
#[derive(Debug, Clone, PartialEq, Eq)]
pub struct StringWithTags {
    pub tags: Vec<Tag>,
    pub string: String,
}

impl StringWithTags {
    /// The name after all that its tags ask for was done to it.
    pub open spec fn tagged(self, prefix: Seq<char>) -> Seq<char> {
        Todo::effects(Todo::list_of(self.tags@), self.string@, prefix)
    }

    /// A name gets the prefix unless a tag says otherwise.
    pub proof fn lemma_tagged(self, prefix: Seq<char>)
        ensures
            self.tagged(prefix) == if self.tags@.contains(Tag::NoPrefix) {
                self.string@
            } else {
                prefix + self.string@
            },
    {
        let todos = Todo::list_of(self.tags@);
        if !self.tags@.contains(Tag::NoPrefix) {
            assert(todos.drop_last() =~= Seq::<Todo>::empty());
            assert(Todo::effects(todos.drop_last(), self.string@, prefix) == self.string@);
        }
    }

    /// Does to the name all that its tags ask for.
    pub fn apply_tags(&self, common_keys: &CommonKeyable) -> (tagged_string: String)
        ensures
            tagged_string@ == self.tagged(common_keys.prefix@),
    {
        let mut tagged_string = self.string.clone();
        let todos = Todo::from_tags_with_presets(&self.tags);
        let mut i: usize = 0;
        assert(todos@.take(0) =~= Seq::<Todo>::empty());
        while i < todos.len()
            invariant
                0 <= i <= todos.len(),
                todos@ == Todo::list_of(self.tags@),
                tagged_string@ == Todo::effects(
                    todos@.take(i as int),
                    self.string@,
                    common_keys.prefix@,
                ),
            decreases todos.len() - i,
        {
            proof {
                assert(todos@.take(i + 1).drop_last() =~= todos@.take(i as int));
            }
            match todos[i] {
                Todo::ApplyPrefix => {
                    let mut prefixed = common_keys.prefix.clone();
                    prefixed.append(tagged_string.as_str());
                    tagged_string = prefixed;
                },
            }
            i = i + 1;
        }
        assert(todos@.take(todos.len() as int) =~= todos@);
        tagged_string
    }
}

/// The name of a definition or of a key, with or without tags.
#[derive(Debug, Clone, PartialEq, Eq)]
pub enum Name {
    Raw(String),
    Tagged(StringWithTags),
}

impl Name {
    /// The name after all that its tags ask for was done to it; a name
    /// without tags gets what the presets ask for.
    pub open spec fn text(self, prefix: Seq<char>) -> Seq<char> {
        match self {
            Name::Raw(string) => Todo::effects(Todo::preset_list(), string@, prefix),
            Name::Tagged(tagged) => tagged.tagged(prefix),
        }
    }

    /// A name without tags gets the prefix.
    pub proof fn lemma_text_untagged(self, prefix: Seq<char>)
        requires
            self is Raw,
        ensures
            self.text(prefix) == prefix + self->Raw_0@,
    {
        let todos = Todo::preset_list();
        assert(todos.drop_last() =~= Seq::<Todo>::empty());
        assert(Todo::effects(todos.drop_last(), self->Raw_0@, prefix) == self->Raw_0@);
    }

    /// Does to the name all that its tags ask for.
    pub fn initialize(&self, common_keys: &CommonKeyable) -> (text: String)
        ensures
            text@ == self.text(common_keys.prefix@),
    {
        match self {
            Name::Raw(string) => {
                let untagged = StringWithTags { tags: Vec::new(), string: string.clone() };
                assert(!untagged.tags@.contains(Tag::NoPrefix));
                untagged.apply_tags(common_keys)
            },
            Name::Tagged(tagged) => tagged.apply_tags(common_keys),
        }
    }
}

impl StringWithTags {
    /// A copy of the name and its tags.
    pub fn duplicate(&self) -> (copy: StringWithTags)
        ensures
            copy.string == self.string,
            copy.tags@ == self.tags@,
    {
        let mut tags: Vec<Tag> = Vec::new();
        let mut i: usize = 0;
        while i < self.tags.len()
            invariant
                0 <= i <= self.tags@.len(),
                tags@ == self.tags@.take(i as int),
            decreases self.tags@.len() - i,
        {
            tags.push(self.tags[i]);
            assert(tags@ =~= self.tags@.take(i + 1));
            i = i + 1;
        }
        assert(self.tags@.take(self.tags@.len() as int) =~= self.tags@);
        StringWithTags { tags, string: self.string.clone() }
    }
}

impl Name {
    /// Whether two names are the same name with the same tags.
    pub open spec fn same(self, other: Name) -> bool {
        match self {
            Name::Raw(string) => other matches Name::Raw(copy) && copy@ == string@,
            Name::Tagged(tagged) => other matches Name::Tagged(copy) && copy.string@
                == tagged.string@ && copy.tags@ == tagged.tags@,
        }
    }

    /// A copy of the name.
    pub fn duplicate(&self) -> (copy: Name)
        ensures
            self.same(copy),
            forall|prefix: Seq<char>| #[trigger] copy.text(prefix) == self.text(prefix),
    {
        match self {
            Name::Raw(string) => Name::Raw(string.clone()),
            Name::Tagged(tagged) => Name::Tagged(tagged.duplicate()),
        }
    }
}

impl Default for Name {
    fn default() -> (name: Name)
        ensures
            name matches Name::Raw(string) && string@.len() == 0,
    {
        Name::Raw(String::new())
    }
}

/// A `#define` of the preamble.  Other strings refer to its name by its
/// key.
#[derive(Debug, Clone, PartialEq, Eq)]
pub struct Definition {
    pub key: String,
    pub name: Preprocessable<Name>,
    pub parameters: Option<Vec<String>>,
    pub expansion: Preprocessable<String>,
}

/// A name that other strings refer to by its key.
#[derive(Debug, Clone, PartialEq, Eq)]
pub struct Key {
    pub key: String,
    pub name: Preprocessable<Name>,
}

/// What stands before the generated macros.
#[derive(Debug, Clone, PartialEq, Eq)]
pub struct Preamble {
    pub raw: Option<Preprocessable<String>>,
    pub keys: Option<Vec<Key>>,
}

/// The bodies of the macros for argument counts that no group fits.
#[derive(Debug, Clone, PartialEq, Eq)]
pub struct Fallbacks {
    /// For a count that is no multiple of the group size.
    pub unparity: Preprocessable<String>,
    /// For no trailing argument at all.
    pub empty: Preprocessable<String>,
}

/// One repeat body with what stands around it.
#[derive(Debug, Clone, PartialEq, Eq)]
pub struct Generator {
    pub fallbacks: Fallbacks,
    pub preamble: Preprocessable<String>,
    pub repeat: Preprocessable<String>,
    pub postamble: Preprocessable<String>,
}

/// A named argument of the outer macro.
#[derive(Debug, Clone, PartialEq, Eq)]
pub struct NamedArgument {
    pub key: String,
    pub name: Preprocessable<String>,
}

/// One entry of the argument list of the outer macro.
#[derive(Debug, Clone, PartialEq, Eq)]
pub enum Argument {
    Named(NamedArgument),
    /// The trailing arguments, in groups of the given size.
    Varadict { varadict: usize },
}

/// The outer macro.
#[derive(Debug, Clone, PartialEq, Eq)]
pub struct Core {
    pub xmva: Preprocessable<String>,
    pub args: Vec<Argument>,
}

/// One value of the serialized global settings.
#[derive(Debug, Clone, PartialEq, Eq)]
pub enum SerializedValue {
    String(String),
    /// Anything that is no string.
    Other,
}

/// One field of the serialized global settings.
#[derive(Debug, Clone, PartialEq, Eq)]
pub struct SerializedEntry {
    pub key: String,
    pub value: SerializedValue,
}

/// The global settings that strings may refer to, as they were
/// serialized.
#[derive(Debug, Clone, PartialEq, Eq)]
pub enum Serialized {
    /// The fields, in the order of the serialized object.
    Object(Vec<SerializedEntry>),
    /// Anything that is no object.
    Other,
}

/// The whole configuration.
#[derive(Debug, Clone, PartialEq, Eq)]
pub struct Config {
    pub common: Common,
    pub preamble: Option<Preamble>,
    pub definition: Option<Vec<Definition>>,
    pub core: Core,
    pub generator: Vec<Generator>,
}

} // verus!
