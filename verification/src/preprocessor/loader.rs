//! The reference stage on a whole configuration: the key table is built
//! and resolved, and every other string has its keys replaced.

use vstd::prelude::*;

use crate::config::{
    Argument, Common, CommonKeyable, Config, Core, Definition, Fallbacks, Generator, Key,
    NamedArgument, Preamble, Serialized, SerializedEntry, SerializedValue,
};
use crate::error::{Error, ErrorKind, Failure};
use crate::preprocessor::resolver::{
    preprocess_key_name_pairs, preprocess_strings, resolve, substitute_prefix, substituted,
    substituted_one,
};
use crate::preprocessor::table::{
    distinct, done_texts, lemma_position, position, AnyPreprocessable, KeyTable, Slot,
};
use crate::preprocessor::Preprocessable;

verus! {

/// An entity that is to be entered into the key table.
pub struct Candidate {
    pub name: Seq<char>,
    pub slot: Slot,
}

/// The names of the candidates.
pub open spec fn candidate_names(candidates: Seq<Candidate>) -> Seq<Seq<char>> {
    Seq::new(candidates.len(), |i: int| candidates[i].name)
}

/// What the candidates hold.
pub open spec fn candidate_slots(candidates: Seq<Candidate>) -> Seq<Slot> {
    Seq::new(candidates.len(), |i: int| candidates[i].slot)
}

/// The seeds: every field of the serialized global settings that is a
/// string, resolved from the start.
pub open spec fn seed_candidates(entries: Seq<SerializedEntry>) -> Seq<Candidate>
    decreases entries.len(),
{
    if entries.len() == 0 {
        Seq::empty()
    } else {
        let before = seed_candidates(entries.drop_last());
        match entries.last().value {
            SerializedValue::String(text) => before.push(
                Candidate { name: entries.last().key@, slot: Slot::Done(text@) },
            ),
            SerializedValue::Other => before,
        }
    }
}

/// The keys of the preamble.
pub open spec fn key_candidates(keys: Seq<Key>, prefix: Seq<char>) -> Seq<Candidate> {
    Seq::new(
        keys.len(),
        |i: int|
            Candidate {
                name: keys[i].key@,
                slot: AnyPreprocessable::Name(keys[i].name).slot(prefix),
            },
    )
}

/// The keys of the definitions.
pub open spec fn definition_candidates(definitions: Seq<Definition>, prefix: Seq<char>) -> Seq<
    Candidate,
> {
    Seq::new(
        definitions.len(),
        |i: int|
            Candidate {
                name: definitions[i].key@,
                slot: AnyPreprocessable::Name(definitions[i].name).slot(prefix),
            },
    )
}

impl Config {
    /// The keys of the preamble; none where there is no preamble or it has
    /// no keys.
    pub open spec fn preamble_keys(self) -> Seq<Key> {
        match self.preamble {
            Some(preamble) => match preamble.keys {
                Some(keys) => keys@,
                None => Seq::empty(),
            },
            None => Seq::empty(),
        }
    }

    /// The definitions; none where there are none.
    pub open spec fn definitions(self) -> Seq<Definition> {
        match self.definition {
            Some(definitions) => definitions@,
            None => Seq::empty(),
        }
    }

    /// All that is to be entered into the key table, in this order: the
    /// seeds, the keys of the preamble, the keys of the definitions.
    pub open spec fn candidates(self, entries: Seq<SerializedEntry>) -> Seq<Candidate> {
        let prefix = self.common.keyable.prefix@;
        seed_candidates(entries) + key_candidates(self.preamble_keys(), prefix)
            + definition_candidates(self.definitions(), prefix)
    }

    /// The key table of the configuration.
    ///
    /// The serialized global settings must be an object, and no two
    /// candidates may share a name: the first candidate that stands behind
    /// one of the same name is a failure that names it.
    pub open spec fn key_table(self, serialized: Serialized) -> Result<Seq<Candidate>, Failure> {
        match serialized {
            Serialized::Other => Err(Failure::plain(ErrorKind::Serialization)),
            Serialized::Object(entries) => {
                let candidates = self.candidates(entries@);
                match first_duplicate(candidate_names(candidates), candidates.len()) {
                    Some(name) => Err(Failure::named(ErrorKind::DuplicateKey, name)),
                    None => Ok(candidates),
                }
            },
        }
    }
}

/// The first of the first `n` names that stands behind the same name.
pub open spec fn first_duplicate(names: Seq<Seq<char>>, n: nat) -> Option<Seq<char>>
    decreases n,
{
    if n == 0 {
        None
    } else {
        match first_duplicate(names, (n - 1) as nat) {
            Some(name) => Some(name),
            None => if position(names.take(n - 1), names[n - 1]) is Some {
                Some(names[n - 1])
            } else {
                None
            },
        }
    }
}

/// The first duplicate among the first `n` names is that of any two lists
/// that agree in their first `n` names.
pub proof fn lemma_first_duplicate_prefix(a: Seq<Seq<char>>, b: Seq<Seq<char>>, n: nat)
    requires
        n <= a.len(),
        n <= b.len(),
        a.take(n as int) == b.take(n as int),
    ensures
        first_duplicate(a, n) == first_duplicate(b, n),
    decreases n,
{
    if n > 0 {
        assert(a.take(n - 1) =~= a.take(n as int).take(n - 1));
        assert(b.take(n - 1) =~= b.take(n as int).take(n - 1));
        lemma_first_duplicate_prefix(a, b, (n - 1) as nat);
        assert(a[n - 1] == a.take(n as int)[n - 1]);
        assert(b[n - 1] == b.take(n as int)[n - 1]);
    }
}

/// A duplicate that was found stays the first however many names follow.
pub proof fn lemma_first_duplicate_found(names: Seq<Seq<char>>, n: nat, m: nat)
    requires
        n <= m,
        first_duplicate(names, n) is Some,
    ensures
        first_duplicate(names, m) == first_duplicate(names, n),
    decreases m,
{
    if n < m {
        lemma_first_duplicate_found(names, n, (m - 1) as nat);
    }
}

/// Names without a duplicate are distinct.
pub proof fn lemma_first_duplicate_distinct(names: Seq<Seq<char>>, n: nat)
    requires
        n <= names.len(),
        first_duplicate(names, n) is None,
    ensures
        distinct(names.take(n as int)),
    decreases n,
{
    if n > 0 {
        lemma_first_duplicate_distinct(names, (n - 1) as nat);
        let front = names.take(n - 1);
        lemma_position(front, names[n - 1]);
        assert forall|i: int, j: int| 0 <= i < j < n implies names.take(n as int)[i]
            != names.take(n as int)[j] by {
            if j < n - 1 {
                assert(front[i] != front[j]);
            } else {
                assert(front[i] != names[n - 1]);
            }
        }
    }
}

/// Whether the table holds exactly the given candidates, in their order,
/// and no two of them share a name.
pub open spec fn holds(table: KeyTable, candidates: Seq<Candidate>, prefix: Seq<char>) -> bool {
    &&& table.names() == candidate_names(candidates)
    &&& table.slots(prefix) == candidate_slots(candidates)
    &&& distinct(candidate_names(candidates))
    &&& first_duplicate(candidate_names(candidates), candidates.len()) is None
}

/// A candidate that stands behind one of the same name, where none before
/// it does, is the first duplicate however many candidates follow.
pub proof fn lemma_duplicate_entered(candidates: Seq<Candidate>, more: Seq<Candidate>)
    requires
        candidates.len() > 0,
        first_duplicate(
            candidate_names(candidates.drop_last()),
            (candidates.len() - 1) as nat,
        ) is None,
        position(candidate_names(candidates.drop_last()), candidates.last().name) is Some,
    ensures
        first_duplicate(candidate_names(candidates + more), (candidates + more).len()) == Some(
            candidates.last().name,
        ),
{
    let n = candidates.len();
    let front = candidate_names(candidates.drop_last());
    let all = candidate_names(candidates + more);
    assert(all.take(n - 1) =~= front);
    assert(front.take(n - 1) =~= front);
    lemma_first_duplicate_prefix(all, front, (n - 1) as nat);
    assert(all[n - 1] == candidates.last().name);
    assert(first_duplicate(all, n) == Some(candidates.last().name));
    lemma_first_duplicate_found(all, n, all.len());
}

fn enter(
    table: &mut KeyTable,
    key: String,
    value: AnyPreprocessable,
    Ghost(candidates): Ghost<Seq<Candidate>>,
    Ghost(prefix): Ghost<Seq<char>>,
) -> (result: Result<(), Error>)
    requires
        holds(*old(table), candidates, prefix),
    ensures
        match result {
            Ok(()) => holds(
                *final(table),
                candidates.push(Candidate { name: key@, slot: value.slot(prefix) }),
                prefix,
            ),
            Err(e) => e@ == Failure::named(ErrorKind::DuplicateKey, key@) && position(
                candidate_names(candidates),
                key@,
            ) is Some,
        },
{
    let ghost next = candidates.push(Candidate { name: key@, slot: value.slot(prefix) });
    let ghost names = table.names();
    let ghost slots = table.slots(prefix);
    proof {
        lemma_position(candidate_names(candidates), key@);
    }
    match table.insert(key, value) {
        Err(e) => Err(e),
        Ok(()) => {
            proof {
                assert(table.names() =~= names.push(key@));
                assert(table.slots(prefix) =~= slots.push(value.slot(prefix)));
                assert(candidate_names(next) =~= candidate_names(candidates).push(key@));
                assert(candidate_slots(next) =~= candidate_slots(candidates).push(
                    value.slot(prefix),
                ));
                assert(candidate_names(next).take(candidates.len() as int) =~= candidate_names(
                    candidates,
                ));
                assert(candidate_names(candidates).take(candidates.len() as int)
                    =~= candidate_names(candidates));
                lemma_first_duplicate_prefix(
                    candidate_names(next),
                    candidate_names(candidates),
                    candidates.len(),
                );
            }
            Ok(())
        },
    }
}

impl Config {
    /// Builds the key table: the seeds first, then the keys of the
    /// preamble, then the keys of the definitions.
    ///
    /// Fails with `Serialization` where the serialized global settings are
    /// no object, and with `DuplicateKey` where two entries share a name.
    pub fn load_preprocessable_key_name_pairs(&self, serialized: &Serialized) -> (result: Result<
        KeyTable,
        Error,
    >)
        ensures
            match result {
                Ok(table) => {
                    &&& table.wf()
                    &&& self.key_table(*serialized) matches Ok(candidates) && holds(
                        table,
                        candidates,
                        self.common.keyable.prefix@,
                    )
                },
                Err(e) => self.key_table(*serialized) == Err::<Seq<Candidate>, Failure>(e@),
            },
    {
        let ghost prefix = self.common.keyable.prefix@;
        let entries = match serialized {
            Serialized::Other => {
                return Err(Error::new(ErrorKind::Serialization));
            },
            Serialized::Object(entries) => entries,
        };
        let ghost seeds = seed_candidates(entries@);
        let ghost keys_part = key_candidates(self.preamble_keys(), prefix);
        let ghost definitions_part = definition_candidates(self.definitions(), prefix);
        let ghost all = self.candidates(entries@);
        let mut keys = KeyTable::new();
        let mut i: usize = 0;
        proof {
            assert(entries@.take(0) =~= Seq::<SerializedEntry>::empty());
            assert(keys.names() =~= candidate_names(Seq::<Candidate>::empty()));
            assert(keys.slots(prefix) =~= candidate_slots(Seq::<Candidate>::empty()));
        }
        while i < entries.len()
            invariant
                0 <= i <= entries@.len(),
                *serialized == Serialized::Object(*entries),
                prefix == self.common.keyable.prefix@,
                seeds == seed_candidates(entries@),
                all == self.candidates(entries@),
                all == seeds + keys_part + definitions_part,
                holds(keys, seed_candidates(entries@.take(i as int)), prefix),
            decreases entries@.len() - i,
        {
            let ghost before = seed_candidates(entries@.take(i as int));
            proof {
                assert(entries@.take(i + 1).drop_last() =~= entries@.take(i as int));
                assert(entries@.take(i + 1).last() == entries@[i as int]);
            }
            match &entries[i].value {
                SerializedValue::String(text) => {
                    let value = AnyPreprocessable::String(
                        Preprocessable::Preprocessed(text.clone()),
                    );
                    match enter(
                        &mut keys,
                        entries[i].key.clone(),
                        value,
                        Ghost(before),
                        Ghost(prefix),
                    ) {
                        Err(e) => {
                            proof {
                                let failed = seed_candidates(entries@.take(i + 1));
                                assert(failed.drop_last() =~= before);
                                lemma_seed_candidates_prefix(entries@, (i + 1) as nat);
                                let rest = seeds.skip(failed.len() as int) + keys_part
                                    + definitions_part;
                                assert(all =~= failed + rest);
                                lemma_duplicate_entered(failed, rest);
                            }
                            return Err(e);
                        },
                        Ok(()) => {},
                    }
                },
                SerializedValue::Other => {},
            }
            i = i + 1;
        }
        assert(entries@.take(entries@.len() as int) =~= entries@);
        match &self.preamble {
            Some(preamble) => match &preamble.keys {
                Some(preamble_keys) => {
                    let mut k: usize = 0;
                    assert(seeds + keys_part.take(0) =~= seeds);
                    while k < preamble_keys.len()
                        invariant
                            0 <= k <= preamble_keys@.len(),
                            *serialized == Serialized::Object(*entries),
                            prefix == self.common.keyable.prefix@,
                            self.preamble_keys() == preamble_keys@,
                            keys_part == key_candidates(preamble_keys@, prefix),
                            all == self.candidates(entries@),
                            all == seeds + keys_part + definitions_part,
                            holds(keys, seeds + keys_part.take(k as int), prefix),
                        decreases preamble_keys@.len() - k,
                    {
                        let key = &preamble_keys[k];
                        let ghost before = seeds + keys_part.take(k as int);
                        let value = AnyPreprocessable::Name(key.name.duplicate());
                        proof {
                            assert(value.slot(prefix) == keys_part[k as int].slot);
                        }
                        match enter(&mut keys, key.key.clone(), value, Ghost(before), Ghost(prefix)) {
                            Err(e) => {
                                proof {
                                    let failed = before.push(keys_part[k as int]);
                                    assert(failed.drop_last() =~= before);
                                    let rest = keys_part.skip(k + 1) + definitions_part;
                                    assert(all =~= failed + rest);
                                    lemma_duplicate_entered(failed, rest);
                                }
                                return Err(e);
                            },
                            Ok(()) => {
                                assert(before.push(keys_part[k as int]) =~= seeds
                                    + keys_part.take(k + 1));
                            },
                        }
                        k = k + 1;
                    }
                    assert(keys_part.take(preamble_keys@.len() as int) =~= keys_part);
                },
                None => {
                    assert(seeds + keys_part =~= seeds);
                },
            },
            None => {
                assert(seeds + keys_part =~= seeds);
            },
        }
        match &self.definition {
            Some(definitions) => {
                let mut k: usize = 0;
                assert(seeds + keys_part + definitions_part.take(0) =~= seeds + keys_part);
                while k < definitions.len()
                    invariant
                        0 <= k <= definitions@.len(),
                        *serialized == Serialized::Object(*entries),
                        prefix == self.common.keyable.prefix@,
                        self.definitions() == definitions@,
                        definitions_part == definition_candidates(definitions@, prefix),
                        all == self.candidates(entries@),
                        all == seeds + keys_part + definitions_part,
                        holds(keys, seeds + keys_part + definitions_part.take(k as int), prefix),
                    decreases definitions@.len() - k,
                {
                    let definition = &definitions[k];
                    let ghost before = seeds + keys_part + definitions_part.take(k as int);
                    let value = AnyPreprocessable::Name(definition.name.duplicate());
                    proof {
                        assert(value.slot(prefix) == definitions_part[k as int].slot);
                    }
                    match enter(
                        &mut keys,
                        definition.key.clone(),
                        value,
                        Ghost(before),
                        Ghost(prefix),
                    ) {
                        Err(e) => {
                            proof {
                                let failed = before.push(definitions_part[k as int]);
                                assert(failed.drop_last() =~= before);
                                let rest = definitions_part.skip(k + 1);
                                assert(all =~= failed + rest);
                                lemma_duplicate_entered(failed, rest);
                            }
                            return Err(e);
                        },
                        Ok(()) => {
                            assert(before.push(definitions_part[k as int]) =~= seeds + keys_part
                                + definitions_part.take(k + 1));
                        },
                    }
                    k = k + 1;
                }
                assert(definitions_part.take(definitions@.len() as int) =~= definitions_part);
            },
            None => {
                assert(seeds + keys_part + definitions_part =~= seeds + keys_part);
            },
        }
        Ok(keys)
    }
}

/// The seeds of a prefix of the fields are a prefix of the seeds.
pub proof fn lemma_seed_candidates_prefix(entries: Seq<SerializedEntry>, n: nat)
    requires
        n <= entries.len(),
    ensures
        seed_candidates(entries.take(n as int)).len() <= seed_candidates(entries).len(),
        seed_candidates(entries.take(n as int)) == seed_candidates(entries).take(
            seed_candidates(entries.take(n as int)).len() as int,
        ),
    decreases entries.len(),
{
    if n == entries.len() {
        assert(entries.take(n as int) =~= entries);
        assert(seed_candidates(entries).take(seed_candidates(entries).len() as int)
            =~= seed_candidates(entries));
    } else {
        lemma_seed_candidates_prefix(entries.drop_last(), n);
        assert(entries.drop_last().take(n as int) =~= entries.take(n as int));
        let part = seed_candidates(entries.take(n as int));
        let front = seed_candidates(entries.drop_last());
        assert(part =~= seed_candidates(entries).take(part.len() as int));
    }
}

/// The raw text of the preamble, if there is one.
pub open spec fn raw_strings(preamble: Option<Preamble>) -> Seq<Preprocessable<String>> {
    match preamble {
        Some(preamble) => match preamble.raw {
            Some(raw) => seq![raw],
            None => Seq::empty(),
        },
        None => Seq::empty(),
    }
}

/// The expansions of the definitions.
pub open spec fn expansions(definitions: Seq<Definition>) -> Seq<Preprocessable<String>> {
    Seq::new(definitions.len(), |i: int| definitions[i].expansion)
}

/// The names of the named arguments, in the order of the argument list.
pub open spec fn argument_names(arguments: Seq<Argument>) -> Seq<Preprocessable<String>>
    decreases arguments.len(),
{
    if arguments.len() == 0 {
        Seq::empty()
    } else {
        let before = argument_names(arguments.drop_last());
        match arguments.last() {
            Argument::Named(named) => before.push(named.name),
            Argument::Varadict { varadict } => before,
        }
    }
}

/// One of the five texts of a generator: the preamble, the repeat body,
/// the postamble, and the two fallbacks.
pub open spec fn generator_string(generator: Generator, which: int) -> Preprocessable<String> {
    if which == 0 {
        generator.preamble
    } else if which == 1 {
        generator.repeat
    } else if which == 2 {
        generator.postamble
    } else if which == 3 {
        generator.fallbacks.unparity
    } else {
        generator.fallbacks.empty
    }
}

/// The texts of all generators, five for each.
pub open spec fn generator_strings(generators: Seq<Generator>) -> Seq<Preprocessable<String>> {
    Seq::new(5 * generators.len(), |k: int| generator_string(generators[k / 5], k % 5))
}

/// The names of the named arguments of a prefix of the argument list are
/// a prefix of the names of all.
pub proof fn lemma_argument_names_prefix(arguments: Seq<Argument>, n: nat)
    requires
        n <= arguments.len(),
    ensures
        argument_names(arguments.take(n as int)).len() <= argument_names(arguments).len(),
        forall|k: int|
            0 <= k < argument_names(arguments.take(n as int)).len() ==> argument_names(
                arguments.take(n as int),
            )[k] == #[trigger] argument_names(arguments)[k],
    decreases arguments.len(),
{
    if n == arguments.len() {
        assert(arguments.take(n as int) =~= arguments);
    } else {
        lemma_argument_names_prefix(arguments.drop_last(), n);
        assert(arguments.drop_last().take(n as int) =~= arguments.take(n as int));
    }
}

/// A copy of a list of strings.
pub fn duplicate_strings(list: &Vec<String>) -> (copy: Vec<String>)
    ensures
        crate::text::views(copy@) == crate::text::views(list@),
{
    let mut copy: Vec<String> = Vec::new();
    let mut i: usize = 0;
    while i < list.len()
        invariant
            0 <= i <= list@.len(),
            copy@.len() == i,
            forall|k: int| 0 <= k < i ==> (#[trigger] copy@[k])@ == list@[k]@,
        decreases list@.len() - i,
    {
        copy.push(list[i].clone());
        i = i + 1;
    }
    assert(crate::text::views(copy@) =~= crate::text::views(list@));
    copy
}

/// Whether the name under a key has the final text of the entry of that
/// key.
pub open spec fn name_done(
    key: Seq<char>,
    after: Preprocessable<crate::config::Name>,
    names: Seq<Seq<char>>,
    texts: Seq<Option<Seq<char>>>,
) -> bool {
    match position(names, key) {
        None => false,
        Some(place) => after.resolved() is Some && after.resolved() == texts[place],
    }
}

/// Whether a key of the preamble is resolved.
pub open spec fn key_done(
    before: Key,
    after: Key,
    names: Seq<Seq<char>>,
    texts: Seq<Option<Seq<char>>>,
) -> bool {
    &&& after.key@ == before.key@
    &&& name_done(before.key@, after.name, names, texts)
}

/// Whether two lists of parameters are the same.
pub open spec fn same_parameters(before: Option<Vec<String>>, after: Option<Vec<String>>) -> bool {
    match before {
        None => after is None,
        Some(list) => after matches Some(copy) && crate::text::views(copy@) == crate::text::views(
            list@,
        ),
    }
}

/// Whether a definition is resolved.
pub open spec fn definition_done(
    before: Definition,
    after: Definition,
    names: Seq<Seq<char>>,
    texts: Seq<Option<Seq<char>>>,
) -> bool {
    &&& after.key@ == before.key@
    &&& name_done(before.key@, after.name, names, texts)
    &&& same_parameters(before.parameters, after.parameters)
    &&& substituted_one(before.expansion, after.expansion, names, texts)
}

/// Whether an argument is resolved.
pub open spec fn argument_done(
    before: Argument,
    after: Argument,
    names: Seq<Seq<char>>,
    texts: Seq<Option<Seq<char>>>,
) -> bool {
    match before {
        Argument::Named(named) => after matches Argument::Named(resolved) && resolved.key@
            == named.key@ && substituted_one(named.name, resolved.name, names, texts),
        Argument::Varadict { varadict } => after == before,
    }
}

/// Whether a generator is resolved.
pub open spec fn generator_done(
    before: Generator,
    after: Generator,
    names: Seq<Seq<char>>,
    texts: Seq<Option<Seq<char>>>,
) -> bool {
    forall|which: int|
        0 <= which < 5 ==> substituted_one(
            #[trigger] generator_string(before, which),
            generator_string(after, which),
            names,
            texts,
        )
}

/// Whether a preamble is resolved.
pub open spec fn preamble_done(
    before: Option<Preamble>,
    after: Option<Preamble>,
    names: Seq<Seq<char>>,
    texts: Seq<Option<Seq<char>>>,
) -> bool {
    match before {
        None => after is None,
        Some(preamble) => {
            &&& after matches Some(resolved)
            &&& match preamble.raw {
                None => resolved.raw is None,
                Some(raw) => resolved.raw matches Some(text) && substituted_one(
                    raw,
                    text,
                    names,
                    texts,
                ),
            }
            &&& match preamble.keys {
                None => resolved.keys is None,
                Some(keys) => {
                    &&& resolved.keys matches Some(list)
                    &&& list@.len() == keys@.len()
                    &&& forall|i: int|
                        0 <= i < keys@.len() ==> key_done(
                            keys@[i],
                            #[trigger] list@[i],
                            names,
                            texts,
                        )
                },
            }
        },
    }
}

/// Whether `after` is `before` with every entity resolved: every name
/// under a key has the final text of the entry of that key, every other
/// string has its keys replaced, and all else is as it was.
pub open spec fn preprocessed_from(
    after: Config,
    before: Config,
    names: Seq<Seq<char>>,
    texts: Seq<Option<Seq<char>>>,
) -> bool {
    &&& after.common.keyable.prefix@ == before.common.keyable.prefix@
    &&& after.common.repeats == before.common.repeats
    &&& preamble_done(before.preamble, after.preamble, names, texts)
    &&& match before.definition {
        None => after.definition is None,
        Some(definitions) => {
            &&& after.definition matches Some(list)
            &&& list@.len() == definitions@.len()
            &&& forall|i: int|
                0 <= i < definitions@.len() ==> definition_done(
                    definitions@[i],
                    #[trigger] list@[i],
                    names,
                    texts,
                )
        },
    }
    &&& substituted_one(before.core.xmva, after.core.xmva, names, texts)
    &&& after.core.args@.len() == before.core.args@.len()
    &&& forall|i: int|
        0 <= i < before.core.args@.len() ==> argument_done(
            before.core.args@[i],
            #[trigger] after.core.args@[i],
            names,
            texts,
        )
    &&& after.generator@.len() == before.generator@.len()
    &&& forall|i: int|
        0 <= i < before.generator@.len() ==> generator_done(
            before.generator@[i],
            #[trigger] after.generator@[i],
            names,
            texts,
        )
}

impl Config {
    /// Whether every entity of the configuration is resolved.
    pub open spec fn all_preprocessed(self) -> bool {
        &&& forall|i: int|
            0 <= i < self.preprocessable_strings().len() ==> (
            #[trigger] self.preprocessable_strings()[i]).resolved() is Some
        &&& forall|i: int|
            0 <= i < self.preamble_keys().len() ==> (#[trigger] self.preamble_keys()[i]).name.resolved()
                is Some
        &&& forall|i: int|
            0 <= i < self.definitions().len() ==> (#[trigger] self.definitions()[i]).name.resolved()
                is Some
    }
}

/// A string with its keys replaced is resolved.
pub proof fn lemma_substituted_resolved(
    before: Preprocessable<String>,
    after: Preprocessable<String>,
    names: Seq<Seq<char>>,
    texts: Seq<Option<Seq<char>>>,
)
    requires
        substituted_one(before, after, names, texts),
    ensures
        after.resolved() is Some,
{
}

/// The names of the named arguments of a resolved argument list are
/// resolved.
proof fn lemma_arguments_resolved(
    before: Seq<Argument>,
    after: Seq<Argument>,
    names: Seq<Seq<char>>,
    texts: Seq<Option<Seq<char>>>,
)
    requires
        after.len() == before.len(),
        forall|i: int|
            0 <= i < before.len() ==> argument_done(before[i], #[trigger] after[i], names, texts),
    ensures
        forall|k: int|
            0 <= k < argument_names(after).len() ==> (#[trigger] argument_names(
                after,
            )[k]).resolved() is Some,
    decreases after.len(),
{
    if after.len() > 0 {
        assert forall|i: int| 0 <= i < before.drop_last().len() implies argument_done(
            before.drop_last()[i],
            #[trigger] after.drop_last()[i],
            names,
            texts,
        ) by {
            assert(argument_done(before[i], after[i], names, texts));
        }
        lemma_arguments_resolved(before.drop_last(), after.drop_last(), names, texts);
        assert(argument_done(before[before.len() - 1], after[after.len() - 1], names, texts));
    }
}

/// A configuration behind the reference stage has every entity resolved.
pub proof fn lemma_preprocessed_resolved(
    after: Config,
    before: Config,
    names: Seq<Seq<char>>,
    texts: Seq<Option<Seq<char>>>,
)
    requires
        preprocessed_from(after, before, names, texts),
    ensures
        after.all_preprocessed(),
{
    let strings = after.preprocessable_strings();
    let raw_part = raw_strings(after.preamble);
    let expansion_part = expansions(after.definitions());
    let argument_part = argument_names(after.core.args@);
    let generator_part = generator_strings(after.generator@);
    lemma_arguments_resolved(before.core.args@, after.core.args@, names, texts);
    assert forall|i: int| 0 <= i < strings.len() implies (#[trigger] strings[i]).resolved()
        is Some by {
        if i < raw_part.len() {
            assert(strings[i] == raw_part[i]);
        } else if i < raw_part.len() + expansion_part.len() {
            let k = i - raw_part.len();
            assert(strings[i] == expansion_part[k]);
            assert(definition_done(
                before.definition->0@[k],
                after.definition->0@[k],
                names,
                texts,
            ));
        } else if i == raw_part.len() + expansion_part.len() {
            assert(strings[i] == after.core.xmva);
        } else if i < raw_part.len() + expansion_part.len() + 1 + argument_part.len() {
            let k = i - raw_part.len() - expansion_part.len() - 1;
            assert(strings[i] == argument_part[k]);
        } else {
            let k = i - raw_part.len() - expansion_part.len() - 1 - argument_part.len();
            assert(strings[i] == generator_part[k]);
            assert(generator_done(
                before.generator@[k / 5],
                after.generator@[k / 5],
                names,
                texts,
            ));
            assert(substituted_one(
                generator_string(before.generator@[k / 5], k % 5),
                generator_string(after.generator@[k / 5], k % 5),
                names,
                texts,
            ));
        }
    }
    assert forall|i: int| 0 <= i < after.preamble_keys().len() implies (
    #[trigger] after.preamble_keys()[i]).name.resolved() is Some by {
        assert(key_done(
            before.preamble->0.keys->0@[i],
            after.preamble->0.keys->0@[i],
            names,
            texts,
        ));
    }
    assert forall|i: int| 0 <= i < after.definitions().len() implies (
    #[trigger] after.definitions()[i]).name.resolved() is Some by {
        assert(definition_done(
            before.definition->0@[i],
            after.definition->0@[i],
            names,
            texts,
        ));
    }
}

/// The key table behind the reference stage.
pub struct Resolved {
    /// The names of the entries.
    pub names: Seq<Seq<char>>,
    /// Their final texts.
    pub texts: Seq<Option<Seq<char>>>,
}

impl Config {
    /// Every string of the configuration that is no name under a key, in
    /// this order: the raw text of the preamble, the expansions of the
    /// definitions, the name of the outer macro, the names of the named
    /// arguments, the texts of the generators.
    pub open spec fn preprocessable_strings(self) -> Seq<Preprocessable<String>> {
        raw_strings(self.preamble) + expansions(self.definitions()) + seq![self.core.xmva]
            + argument_names(self.core.args@) + generator_strings(self.generator@)
    }

    /// The reference stage: the key table is built and resolved, then
    /// every other string has its keys replaced.  The first failure is the
    /// result.
    pub open spec fn resolution(self, serialized: Serialized) -> Result<Resolved, Failure> {
        match self.key_table(serialized) {
            Err(failure) => Err(failure),
            Ok(candidates) => {
                let names = candidate_names(candidates);
                let outcome = resolve(names, candidate_slots(candidates), names.len());
                match outcome.failure {
                    Some(failure) => Err(failure),
                    None => {
                        let texts = done_texts(outcome.slots);
                        let strings = self.preprocessable_strings();
                        match substitute_prefix(strings, names, texts, strings.len()).failure {
                            Some(failure) => Err(failure),
                            None => Ok(Resolved { names, texts }),
                        }
                    },
                }
            },
        }
    }

    /// Every string of the configuration that is no name under a key.
    pub fn load_preprocessable_strings(&self) -> (strings: Vec<Preprocessable<String>>)
        ensures
            strings@ == self.preprocessable_strings(),
    {
        let mut preprocessables: Vec<Preprocessable<String>> = Vec::new();
        match &self.preamble {
            Some(preamble) => match &preamble.raw {
                Some(raw) => {
                    preprocessables.push(raw.duplicate());
                },
                None => {},
            },
            None => {},
        }
        assert(preprocessables@ =~= raw_strings(self.preamble));
        let ghost first = preprocessables@;
        match &self.definition {
            Some(definitions) => {
                let mut i: usize = 0;
                while i < definitions.len()
                    invariant
                        0 <= i <= definitions@.len(),
                        preprocessables@ == first + expansions(definitions@).take(i as int),
                    decreases definitions@.len() - i,
                {
                    preprocessables.push(definitions[i].expansion.duplicate());
                    assert(preprocessables@ =~= first + expansions(definitions@).take(i + 1));
                    i = i + 1;
                }
                assert(expansions(definitions@).take(definitions@.len() as int) =~= expansions(
                    definitions@,
                ));
            },
            None => {
                assert(preprocessables@ =~= first + expansions(self.definitions()));
            },
        }
        preprocessables.push(self.core.xmva.duplicate());
        let ghost second = preprocessables@;
        assert(second =~= first + expansions(self.definitions()) + seq![self.core.xmva]);
        let mut i: usize = 0;
        assert(self.core.args@.take(0) =~= Seq::<Argument>::empty());
        while i < self.core.args.len()
            invariant
                0 <= i <= self.core.args@.len(),
                preprocessables@ == second + argument_names(self.core.args@.take(i as int)),
            decreases self.core.args@.len() - i,
        {
            proof {
                assert(self.core.args@.take(i + 1).drop_last() =~= self.core.args@.take(
                    i as int,
                ));
                assert(self.core.args@.take(i + 1).last() == self.core.args@[i as int]);
            }
            match &self.core.args[i] {
                Argument::Named(named) => {
                    preprocessables.push(named.name.duplicate());
                    assert(preprocessables@ =~= second + argument_names(
                        self.core.args@.take(i + 1),
                    ));
                },
                Argument::Varadict { varadict: _ } => {},
            }
            i = i + 1;
        }
        assert(self.core.args@.take(self.core.args@.len() as int) =~= self.core.args@);
        let ghost third = preprocessables@;
        let mut i: usize = 0;
        while i < self.generator.len()
            invariant
                0 <= i <= self.generator@.len(),
                preprocessables@.len() == third.len() + 5 * i,
                forall|k: int| 0 <= k < third.len() ==> preprocessables@[k] == third[k],
                forall|k: int|
                    0 <= k < 5 * i ==> (#[trigger] preprocessables@[third.len() + k])
                        == generator_string(self.generator@[k / 5], k % 5),
            decreases self.generator@.len() - i,
        {
            let generator = &self.generator[i];
            preprocessables.push(generator.preamble.duplicate());
            preprocessables.push(generator.repeat.duplicate());
            preprocessables.push(generator.postamble.duplicate());
            preprocessables.push(generator.fallbacks.unparity.duplicate());
            preprocessables.push(generator.fallbacks.empty.duplicate());
            i = i + 1;
        }
        proof {
            let whole = third + generator_strings(self.generator@);
            assert forall|j: int| 0 <= j < whole.len() implies preprocessables@[j] == whole[j] by {
                if j >= third.len() {
                    let k = j - third.len();
                    assert(preprocessables@[third.len() + k] == generator_string(
                        self.generator@[k / 5],
                        k % 5,
                    ));
                }
            }
            assert(preprocessables@ =~= whole);
        }
        preprocessables
    }
}

fn settled_name(table: &KeyTable, key: &String) -> (name: Preprocessable<crate::config::Name>)
    requires
        table.all_resolved(),
        position(table.names(), key@) is Some,
    ensures
        name_done(key@, name, table.names(), table.texts()),
{
    proof {
        lemma_position(table.names(), key@);
        let place = position(table.names(), key@)->0;
        assert(table.texts()[place] is Some);
        assert(table.texts()[place] == table.entries@[place].value.resolved());
    }
    match table.get(key) {
        Some(AnyPreprocessable::Name(Preprocessable::Preprocessed(text))) => {
            Preprocessable::Preprocessed(text.clone())
        },
        Some(AnyPreprocessable::String(Preprocessable::Preprocessed(text))) => {
            Preprocessable::Preprocessed(text.clone())
        },
        _ => {
            proof {
                assert(false);
            }
            Preprocessable::Preprocessed(String::new())
        },
    }
}

fn settled_keys(list: &Vec<Key>, table: &KeyTable) -> (settled: Vec<Key>)
    requires
        table.all_resolved(),
        forall|i: int|
            0 <= i < list@.len() ==> position(table.names(), (#[trigger] list@[i]).key@) is Some,
    ensures
        settled@.len() == list@.len(),
        forall|i: int|
            0 <= i < list@.len() ==> key_done(
                list@[i],
                #[trigger] settled@[i],
                table.names(),
                table.texts(),
            ),
{
    let mut settled: Vec<Key> = Vec::new();
    let mut i: usize = 0;
    while i < list.len()
        invariant
            0 <= i <= list@.len(),
            table.all_resolved(),
            forall|k: int|
                0 <= k < list@.len() ==> position(table.names(), (#[trigger] list@[k]).key@)
                    is Some,
            settled@.len() == i,
            forall|k: int|
                0 <= k < i ==> key_done(
                    list@[k],
                    #[trigger] settled@[k],
                    table.names(),
                    table.texts(),
                ),
        decreases list@.len() - i,
    {
        assert(position(table.names(), list@[i as int].key@) is Some);
        let name = settled_name(table, &list[i].key);
        settled.push(Key { key: list[i].key.clone(), name });
        i = i + 1;
    }
    settled
}

fn settled_definitions(
    list: &Vec<Definition>,
    table: &KeyTable,
    strings: &Vec<Preprocessable<String>>,
    start: usize,
) -> (settled: Vec<Definition>)
    requires
        table.all_resolved(),
        start + list@.len() <= strings@.len(),
        forall|i: int|
            0 <= i < list@.len() ==> position(table.names(), (#[trigger] list@[i]).key@) is Some,
        forall|i: int|
            0 <= i < list@.len() ==> substituted_one(
                (#[trigger] list@[i]).expansion,
                strings@[start + i],
                table.names(),
                table.texts(),
            ),
    ensures
        settled@.len() == list@.len(),
        forall|i: int|
            0 <= i < list@.len() ==> definition_done(
                list@[i],
                #[trigger] settled@[i],
                table.names(),
                table.texts(),
            ),
{
    let mut settled: Vec<Definition> = Vec::new();
    let total = strings.len();
    let mut i: usize = 0;
    while i < list.len()
        invariant
            0 <= i <= list@.len(),
            table.all_resolved(),
            total == strings@.len(),
            start + list@.len() <= strings@.len(),
            forall|k: int|
                0 <= k < list@.len() ==> position(table.names(), (#[trigger] list@[k]).key@)
                    is Some,
            forall|k: int|
                0 <= k < list@.len() ==> substituted_one(
                    (#[trigger] list@[k]).expansion,
                    strings@[start + k],
                    table.names(),
                    table.texts(),
                ),
            settled@.len() == i,
            forall|k: int|
                0 <= k < i ==> definition_done(
                    list@[k],
                    #[trigger] settled@[k],
                    table.names(),
                    table.texts(),
                ),
        decreases list@.len() - i,
    {
        let definition = &list[i];
        assert(position(table.names(), list@[i as int].key@) is Some);
        assert(substituted_one(
            list@[i as int].expansion,
            strings@[start + i],
            table.names(),
            table.texts(),
        ));
        let name = settled_name(table, &definition.key);
        let parameters = match &definition.parameters {
            Some(parameters) => Some(duplicate_strings(parameters)),
            None => None,
        };
        let expansion = strings[start + i].duplicate();
        settled.push(Definition { key: definition.key.clone(), name, parameters, expansion });
        i = i + 1;
    }
    settled
}

fn settled_arguments(
    list: &Vec<Argument>,
    table: &KeyTable,
    strings: &Vec<Preprocessable<String>>,
    start: usize,
) -> (settled: Vec<Argument>)
    requires
        start + argument_names(list@).len() <= strings@.len(),
        forall|k: int|
            0 <= k < argument_names(list@).len() ==> substituted_one(
                #[trigger] argument_names(list@)[k],
                strings@[start + k],
                table.names(),
                table.texts(),
            ),
    ensures
        settled@.len() == list@.len(),
        forall|i: int|
            0 <= i < list@.len() ==> argument_done(
                list@[i],
                #[trigger] settled@[i],
                table.names(),
                table.texts(),
            ),
{
    let ghost all = argument_names(list@);
    let mut settled: Vec<Argument> = Vec::new();
    let total = strings.len();
    let mut cursor: usize = start;
    let mut i: usize = 0;
    assert(list@.take(0) =~= Seq::<Argument>::empty());
    while i < list.len()
        invariant
            0 <= i <= list@.len(),
            all == argument_names(list@),
            total == strings@.len(),
            start + all.len() <= strings@.len(),
            forall|k: int|
                0 <= k < all.len() ==> substituted_one(
                    #[trigger] all[k],
                    strings@[start + k],
                    table.names(),
                    table.texts(),
                ),
            cursor == start + argument_names(list@.take(i as int)).len(),
            settled@.len() == i,
            forall|k: int|
                0 <= k < i ==> argument_done(
                    list@[k],
                    #[trigger] settled@[k],
                    table.names(),
                    table.texts(),
                ),
        decreases list@.len() - i,
    {
        proof {
            assert(list@.take(i + 1).drop_last() =~= list@.take(i as int));
            assert(list@.take(i + 1).last() == list@[i as int]);
            lemma_argument_names_prefix(list@, (i + 1) as nat);
        }
        match &list[i] {
            Argument::Named(named) => {
                proof {
                    let k = cursor - start;
                    assert(argument_names(list@.take(i + 1))[k] == named.name);
                    assert(all[k] == named.name);
                }
                let name = strings[cursor].duplicate();
                cursor = cursor + 1;
                settled.push(Argument::Named(NamedArgument { key: named.key.clone(), name }));
            },
            Argument::Varadict { varadict } => {
                settled.push(Argument::Varadict { varadict: *varadict });
            },
        }
        i = i + 1;
    }
    settled
}

fn settled_generators(
    list: &Vec<Generator>,
    table: &KeyTable,
    strings: &Vec<Preprocessable<String>>,
    start: usize,
) -> (settled: Vec<Generator>)
    requires
        start + 5 * list@.len() <= strings@.len(),
        forall|k: int|
            0 <= k < 5 * list@.len() ==> substituted_one(
                #[trigger] generator_strings(list@)[k],
                strings@[start + k],
                table.names(),
                table.texts(),
            ),
    ensures
        settled@.len() == list@.len(),
        forall|i: int|
            0 <= i < list@.len() ==> generator_done(
                list@[i],
                #[trigger] settled@[i],
                table.names(),
                table.texts(),
            ),
{
    let ghost all = generator_strings(list@);
    let mut settled: Vec<Generator> = Vec::new();
    let total = strings.len();
    let mut i: usize = 0;
    while i < list.len()
        invariant
            0 <= i <= list@.len(),
            all == generator_strings(list@),
            total == strings@.len(),
            start + 5 * list@.len() <= strings@.len(),
            forall|k: int|
                0 <= k < 5 * list@.len() ==> substituted_one(
                    #[trigger] all[k],
                    strings@[start + k],
                    table.names(),
                    table.texts(),
                ),
            settled@.len() == i,
            forall|k: int|
                0 <= k < i ==> generator_done(
                    list@[k],
                    #[trigger] settled@[k],
                    table.names(),
                    table.texts(),
                ),
        decreases list@.len() - i,
    {
        let base: usize = start + 5 * i;
        proof {
            assert(all[5 * i] == generator_string(list@[i as int], 0));
            assert(all[5 * i + 1] == generator_string(list@[i as int], 1));
            assert(all[5 * i + 2] == generator_string(list@[i as int], 2));
            assert(all[5 * i + 3] == generator_string(list@[i as int], 3));
            assert(all[5 * i + 4] == generator_string(list@[i as int], 4));
        }
        let preamble = strings[base].duplicate();
        let repeat = strings[base + 1].duplicate();
        let postamble = strings[base + 2].duplicate();
        let unparity = strings[base + 3].duplicate();
        let empty = strings[base + 4].duplicate();
        let generator = Generator {
            fallbacks: Fallbacks { unparity, empty },
            preamble,
            repeat,
            postamble,
        };
        proof {
            assert forall|which: int| 0 <= which < 5 implies substituted_one(
                #[trigger] generator_string(list@[i as int], which),
                generator_string(generator, which),
                table.names(),
                table.texts(),
            ) by {
                assert(substituted_one(
                    all[5 * i + which],
                    strings@[start + (5 * i + which)],
                    table.names(),
                    table.texts(),
                ));
            }
        }
        settled.push(generator);
        i = i + 1;
    }
    settled
}

/// Every candidate has its place in a table that holds the candidates.
pub proof fn lemma_candidate_position(candidates: Seq<Candidate>, place: int)
    requires
        0 <= place < candidates.len(),
        distinct(candidate_names(candidates)),
    ensures
        position(candidate_names(candidates), candidates[place].name) == Some(place),
{
    let names = candidate_names(candidates);
    lemma_position(names, candidates[place].name);
    assert(names[place] == candidates[place].name);
}

impl Config {
    /// Whether the strings are those of the configuration with their keys
    /// replaced.
    pub open spec fn strings_done(
        self,
        strings: Seq<Preprocessable<String>>,
        names: Seq<Seq<char>>,
        texts: Seq<Option<Seq<char>>>,
    ) -> bool {
        substituted(
            self.preprocessable_strings(),
            strings,
            names,
            texts,
            self.preprocessable_strings().len(),
        )
    }

    /// Whether the table has an entry for every key of the preamble and of
    /// the definitions.
    pub open spec fn keys_entered(self, names: Seq<Seq<char>>) -> bool {
        &&& forall|i: int|
            0 <= i < self.preamble_keys().len() ==> position(
                names,
                (#[trigger] self.preamble_keys()[i]).key@,
            ) is Some
        &&& forall|i: int|
            0 <= i < self.definitions().len() ==> position(
                names,
                (#[trigger] self.definitions()[i]).key@,
            ) is Some
    }

    fn settled_preamble(
        &self,
        table: &KeyTable,
        strings: &Vec<Preprocessable<String>>,
    ) -> (preamble:
        Option<Preamble>)
        requires
            table.all_resolved(),
            self.keys_entered(table.names()),
            self.strings_done(strings@, table.names(), table.texts()),
        ensures
            preamble_done(self.preamble, preamble, table.names(), table.texts()),
    {
        let ghost before = self.preprocessable_strings();
        match &self.preamble {
            None => None,
            Some(preamble) => {
                let raw = match &preamble.raw {
                    None => None,
                    Some(_) => {
                        proof {
                            assert(before[0] == raw_strings(self.preamble)[0]);
                            assert(substituted_one(
                                before[0],
                                strings@[0],
                                table.names(),
                                table.texts(),
                            ));
                        }
                        Some(strings[0].duplicate())
                    },
                };
                let preamble_keys = match &preamble.keys {
                    None => None,
                    Some(list) => {
                        proof {
                            assert(self.preamble_keys() == list@);
                        }
                        Some(settled_keys(list, table))
                    },
                };
                Some(Preamble { raw, keys: preamble_keys })
            },
        }
    }

    fn settled_definition(
        &self,
        table: &KeyTable,
        strings: &Vec<Preprocessable<String>>,
    ) -> (definition:
        Option<Vec<Definition>>)
        requires
            table.all_resolved(),
            self.keys_entered(table.names()),
            self.strings_done(strings@, table.names(), table.texts()),
        ensures
            match self.definition {
                None => definition is None,
                Some(definitions) => {
                    &&& definition matches Some(list)
                    &&& list@.len() == definitions@.len()
                    &&& forall|i: int|
                        0 <= i < definitions@.len() ==> definition_done(
                            definitions@[i],
                            #[trigger] list@[i],
                            table.names(),
                            table.texts(),
                        )
                },
            },
    {
        let ghost before = self.preprocessable_strings();
        let ghost raw_part = raw_strings(self.preamble);
        let start: usize = match &self.preamble {
            None => 0,
            Some(preamble) => match &preamble.raw {
                None => 0,
                Some(_) => 1,
            },
        };
        assert(start == raw_part.len());
        match &self.definition {
            None => None,
            Some(list) => {
                proof {
                    assert(self.definitions() == list@);
                    assert forall|i: int| 0 <= i < list@.len() implies substituted_one(
                        (#[trigger] list@[i]).expansion,
                        strings@[start + i],
                        table.names(),
                        table.texts(),
                    ) by {
                        assert(before[start + i] == expansions(list@)[i]);
                        assert(substituted_one(
                            before[start + i],
                            strings@[start + i],
                            table.names(),
                            table.texts(),
                        ));
                    }
                }
                Some(settled_definitions(list, table, strings, start))
            },
        }
    }

    fn settled_core(&self, table: &KeyTable, strings: &Vec<Preprocessable<String>>) -> (core: Core)
        requires
            self.strings_done(strings@, table.names(), table.texts()),
        ensures
            substituted_one(self.core.xmva, core.xmva, table.names(), table.texts()),
            core.args@.len() == self.core.args@.len(),
            forall|i: int|
                0 <= i < self.core.args@.len() ==> argument_done(
                    self.core.args@[i],
                    #[trigger] core.args@[i],
                    table.names(),
                    table.texts(),
                ),
    {
        let ghost before = self.preprocessable_strings();
        let ghost argument_part = argument_names(self.core.args@);
        let total = strings.len();
        let raw_count: usize = match &self.preamble {
            None => 0,
            Some(preamble) => match &preamble.raw {
                None => 0,
                Some(_) => 1,
            },
        };
        let definition_count: usize = match &self.definition {
            None => 0,
            Some(list) => list.len(),
        };
        assert(raw_count == raw_strings(self.preamble).len());
        assert(definition_count == expansions(self.definitions()).len());
        let place: usize = raw_count + definition_count;
        proof {
            assert(before[place as int] == self.core.xmva);
            assert(substituted_one(
                before[place as int],
                strings@[place as int],
                table.names(),
                table.texts(),
            ));
            assert forall|k: int| 0 <= k < argument_part.len() implies substituted_one(
                #[trigger] argument_part[k],
                strings@[place + 1 + k],
                table.names(),
                table.texts(),
            ) by {
                assert(before[place + 1 + k] == argument_part[k]);
                assert(substituted_one(
                    before[place + 1 + k],
                    strings@[place + 1 + k],
                    table.names(),
                    table.texts(),
                ));
            }
        }
        let xmva = strings[place].duplicate();
        let args = settled_arguments(&self.core.args, table, strings, place + 1);
        Core { xmva, args }
    }

    fn settled_generator(
        &self,
        table: &KeyTable,
        strings: &Vec<Preprocessable<String>>,
    ) -> (generator:
        Vec<Generator>)
        requires
            self.strings_done(strings@, table.names(), table.texts()),
        ensures
            generator@.len() == self.generator@.len(),
            forall|i: int|
                0 <= i < self.generator@.len() ==> generator_done(
                    self.generator@[i],
                    #[trigger] generator@[i],
                    table.names(),
                    table.texts(),
                ),
    {
        let ghost before = self.preprocessable_strings();
        let ghost generator_part = generator_strings(self.generator@);
        let total = strings.len();
        let count = self.generator.len();
        assert(total == before.len());
        assert(before.len() >= 5 * count);
        let start: usize = total - 5 * count;
        proof {
            assert forall|k: int| 0 <= k < 5 * self.generator@.len() implies substituted_one(
                #[trigger] generator_part[k],
                strings@[start + k],
                table.names(),
                table.texts(),
            ) by {
                assert(before[start + k] == generator_part[k]);
                assert(substituted_one(
                    before[start + k],
                    strings@[start + k],
                    table.names(),
                    table.texts(),
                ));
            }
        }
        settled_generators(&self.generator, table, strings, start)
    }

    /// Runs the reference stage on the configuration and gives the
    /// configuration with every entity resolved.
    ///
    /// `serialized` holds the global settings that strings may refer to.
    /// The key table is built from it and from the keys of the preamble
    /// and of the definitions, and is resolved; then the keys in every
    /// other string are replaced.  The first failure is the result, and
    /// nothing is resolved then.  On success every entity of the
    /// configuration that is given back is resolved.
    pub fn preprocess(&self, serialized: &Serialized) -> (result: Result<Config, Error>)
        ensures
            match result {
                Ok(config) => self.resolution(*serialized) matches Ok(table) && preprocessed_from(
                    config,
                    *self,
                    table.names,
                    table.texts,
                ) && config.all_preprocessed(),
                Err(e) => self.resolution(*serialized) == Err::<Resolved, Failure>(e@),
            },
    {
        let ghost prefix = self.common.keyable.prefix@;
        let mut keys = match self.load_preprocessable_key_name_pairs(serialized) {
            Ok(keys) => keys,
            Err(e) => {
                return Err(e);
            },
        };
        let ghost candidates = self.key_table(*serialized)->Ok_0;
        let ghost names = candidate_names(candidates);
        let ghost slots = candidate_slots(candidates);
        proof {
            crate::preprocessor::resolver::lemma_pending_count(slots, slots.len());
            crate::preprocessor::resolver::lemma_resolve_complete(names, slots, names.len());
            self.lemma_keys_entered(*serialized);
        }
        match preprocess_key_name_pairs(&mut keys, &self.common.keyable) {
            Ok(()) => {},
            Err(e) => {
                return Err(e);
            },
        }
        proof {
            keys.lemma_texts_of_slots(prefix);
            assert(keys.all_resolved());
        }
        let mut strings = self.load_preprocessable_strings();
        match preprocess_strings(&mut strings, &keys, &self.common.keyable) {
            Ok(()) => {},
            Err(e) => {
                return Err(e);
            },
        }
        let preamble = self.settled_preamble(&keys, &strings);
        let definition = self.settled_definition(&keys, &strings);
        let core = self.settled_core(&keys, &strings);
        let generator = self.settled_generator(&keys, &strings);
        let common = Common {
            keyable: CommonKeyable { prefix: self.common.keyable.prefix.clone() },
            repeats: self.common.repeats,
        };
        let config = Config { common, preamble, definition, core, generator };
        proof {
            lemma_preprocessed_resolved(config, *self, keys.names(), keys.texts());
        }
        Ok(config)
    }

    /// A key table that was built has an entry for every key of the
    /// preamble and of the definitions.
    pub proof fn lemma_keys_entered(self, serialized: Serialized)
        requires
            self.key_table(serialized) is Ok,
        ensures
            self.keys_entered(candidate_names(self.key_table(serialized)->Ok_0)),
    {
        let prefix = self.common.keyable.prefix@;
        let candidates = self.key_table(serialized)->Ok_0;
        let seeds = seed_candidates(serialized->Object_0@);
        let key_part = key_candidates(self.preamble_keys(), prefix);
        let definition_part = definition_candidates(self.definitions(), prefix);
        assert(candidates == seeds + key_part + definition_part);
        let names = candidate_names(candidates);
        lemma_first_duplicate_distinct(names, names.len());
        assert(names.take(names.len() as int) =~= names);
        assert forall|i: int| 0 <= i < self.preamble_keys().len() implies position(
            candidate_names(candidates),
            (#[trigger] self.preamble_keys()[i]).key@,
        ) is Some by {
            lemma_candidate_position(candidates, seeds.len() + i);
            assert(candidates[seeds.len() + i] == key_part[i]);
        }
        assert forall|i: int| 0 <= i < self.definitions().len() implies position(
            candidate_names(candidates),
            (#[trigger] self.definitions()[i]).key@,
        ) is Some by {
            lemma_candidate_position(candidates, seeds.len() + key_part.len() + i);
            assert(candidates[seeds.len() + key_part.len() + i] == definition_part[i]);
        }
    }
}

} // verus!
