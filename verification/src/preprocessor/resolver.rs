//! Resolution of the key table by sweeps, and substitution of keys in
//! every other string.

use vstd::prelude::*;

use crate::config::CommonKeyable;
use crate::error::{Error, ErrorKind, Failure};
use crate::preprocessor::table::{
    done_texts, position, AnyPreprocessable, KeyTable, Slot,
};
use crate::preprocessor::token::{
    lemma_reference_lex_failure_kind, reference_lex, reference_views, PreprocessorToken,
    ReferenceToken,
};
use crate::preprocessor::{Preprocess, Preprocessable};

verus! {

/// One token added to what an attempt has spliced together so far.
pub open spec fn assemble_step(
    before: Result<Option<Seq<char>>, Failure>,
    token: ReferenceToken,
    names: Seq<Seq<char>>,
    texts: Seq<Option<Seq<char>>>,
) -> Result<Option<Seq<char>>, Failure> {
    match before {
        Err(failure) => Err(failure),
        Ok(None) => Ok(None),
        Ok(Some(text)) => match token {
            ReferenceToken::Raw(raw) => Ok(Some(text + raw)),
            ReferenceToken::Key(name) => match position(names, name) {
                None => Err(Failure::named(ErrorKind::NonExistentReference, name)),
                Some(place) => match texts[place] {
                    None => Ok(None),
                    Some(resolved) => Ok(Some(text + resolved)),
                },
            },
        },
    }
}

/// The tokens spliced together, each key replaced by the final text of its
/// entry.  The tokens are read from left to right: the first key whose
/// entry is missing is a failure that names the key, the first key whose
/// entry is pending ends the attempt without a text.
pub open spec fn assemble(
    tokens: Seq<ReferenceToken>,
    names: Seq<Seq<char>>,
    texts: Seq<Option<Seq<char>>>,
) -> Result<Option<Seq<char>>, Failure>
    decreases tokens.len(),
{
    if tokens.len() == 0 {
        Ok(Some(Seq::empty()))
    } else {
        assemble_step(assemble(tokens.drop_last(), names, texts), tokens.last(), names, texts)
    }
}

/// The text of a string with every key replaced by the final text of its
/// entry.  A key whose entry is pending gives no text.
pub open spec fn substitute(
    source: Seq<char>,
    names: Seq<Seq<char>>,
    texts: Seq<Option<Seq<char>>>,
) -> Result<Option<Seq<char>>, Failure> {
    match reference_lex(source) {
        Err((kind, index)) => Err(Failure::at(kind, source, index)),
        Ok(tokens) => assemble(tokens, names, texts),
    }
}

/// The table in the course of one sweep.
pub struct Sweep {
    /// What the entries hold.
    pub slots: Seq<Slot>,
    /// How many entries were attempted and are still pending.
    pub deferred: nat,
    /// The failure that ended the sweep, if one did.
    pub failure: Option<Failure>,
}

/// The entry at `place` attempted: a pending entry is read for references
/// and spliced together against the table as it stands.
pub open spec fn sweep_step(names: Seq<Seq<char>>, before: Sweep, place: int) -> Sweep {
    if before.failure is Some {
        before
    } else {
        match before.slots[place] {
            Slot::Done(_) => before,
            Slot::Pending(source) => match substitute(source, names, done_texts(before.slots)) {
                Err(failure) => Sweep {
                    slots: before.slots,
                    deferred: before.deferred,
                    failure: Some(failure),
                },
                Ok(None) => Sweep {
                    slots: before.slots,
                    deferred: before.deferred + 1,
                    failure: None,
                },
                Ok(Some(text)) => Sweep {
                    slots: before.slots.update(place, Slot::Done(text)),
                    deferred: before.deferred,
                    failure: None,
                },
            },
        }
    }
}

/// One sweep over the first `n` entries, in the order of the table: each
/// entry is attempted against the table as the entries before it have
/// left it.
pub open spec fn sweep_prefix(names: Seq<Seq<char>>, slots: Seq<Slot>, n: nat) -> Sweep
    decreases n,
{
    if n == 0 {
        Sweep { slots, deferred: 0, failure: None }
    } else {
        sweep_step(names, sweep_prefix(names, slots, (n - 1) as nat), n - 1)
    }
}

/// One sweep over the whole table.
pub open spec fn sweep_all(names: Seq<Seq<char>>, slots: Seq<Slot>) -> Sweep {
    sweep_prefix(names, slots, slots.len())
}

/// What resolution leaves behind.
pub struct Resolution {
    /// What the entries hold.
    pub slots: Seq<Slot>,
    /// The failure that ended the resolution, if one did.
    pub failure: Option<Failure>,
}

/// Sweeps until no entry was deferred.  `left` bounds the number of
/// entries that a sweep may defer: a sweep that defers as many or more has
/// made no progress, and resolution fails with `MutualReference`, naming
/// every entry that is still pending.
pub open spec fn resolve(names: Seq<Seq<char>>, slots: Seq<Slot>, left: nat) -> Resolution
    decreases left,
{
    if left == 0 {
        Resolution { slots, failure: None }
    } else {
        let outcome = sweep_all(names, slots);
        if outcome.failure is Some {
            Resolution { slots: outcome.slots, failure: outcome.failure }
        } else if outcome.deferred >= left {
            Resolution {
                slots: outcome.slots,
                failure: Some(
                    Failure::naming(
                        ErrorKind::MutualReference,
                        pending_names(names, outcome.slots, names.len()),
                    ),
                ),
            }
        } else {
            resolve(names, outcome.slots, outcome.deferred)
        }
    }
}

/// The names of the entries that are pending.
pub open spec fn pending_names(names: Seq<Seq<char>>, slots: Seq<Slot>, n: nat) -> Seq<Seq<char>>
    decreases n,
{
    if n == 0 {
        Seq::empty()
    } else {
        let before = pending_names(names, slots, (n - 1) as nat);
        if slots[n - 1] is Pending {
            before.push(names[n - 1])
        } else {
            before
        }
    }
}

/// A sweep keeps the number of entries.
pub proof fn lemma_sweep_len(names: Seq<Seq<char>>, slots: Seq<Slot>, n: nat)
    requires
        n <= slots.len(),
    ensures
        sweep_prefix(names, slots, n).slots.len() == slots.len(),
        sweep_prefix(names, slots, n).deferred <= n,
    decreases n,
{
    if n > 0 {
        lemma_sweep_len(names, slots, (n - 1) as nat);
        let before = sweep_prefix(names, slots, (n - 1) as nat);
        assert(sweep_prefix(names, slots, n) == sweep_step(names, before, n - 1));
    }
}

/// How many of the first `n` entries are pending.
pub open spec fn pending_count(slots: Seq<Slot>, n: nat) -> nat
    decreases n,
{
    if n == 0 {
        0
    } else {
        pending_count(slots, (n - 1) as nat) + if slots[n - 1] is Pending {
            1nat
        } else {
            0nat
        }
    }
}

/// Whether every entry is resolved.
pub open spec fn all_done(slots: Seq<Slot>) -> bool {
    forall|i: int| 0 <= i < slots.len() ==> (#[trigger] slots[i]) is Done
}

/// Tables that are pending in the same places have the same number of
/// pending entries.
pub proof fn lemma_pending_count_agree(a: Seq<Slot>, b: Seq<Slot>, n: nat)
    requires
        forall|i: int| 0 <= i < n ==> (#[trigger] a[i]) is Pending == b[i] is Pending,
    ensures
        pending_count(a, n) == pending_count(b, n),
    decreases n,
{
    if n > 0 {
        lemma_pending_count_agree(a, b, (n - 1) as nat);
        assert(a[n - 1] is Pending == b[n - 1] is Pending);
    }
}

/// No more entries are pending than there are entries, and where none is
/// pending every entry is resolved.
pub proof fn lemma_pending_count(slots: Seq<Slot>, n: nat)
    ensures
        pending_count(slots, n) <= n,
        pending_count(slots, n) == 0 ==> forall|i: int|
            0 <= i < n ==> (#[trigger] slots[i]) is Done,
    decreases n,
{
    if n > 0 {
        lemma_pending_count(slots, (n - 1) as nat);
    }
}

/// What a sweep leaves alone, and what it counts: an entry behind the
/// first `n` is as it was, a resolved entry stays as it is, an entry that
/// is still pending is as it was, and the entries that were deferred are
/// those of the first `n` that are still pending.
pub proof fn lemma_sweep_frame(names: Seq<Seq<char>>, slots: Seq<Slot>, n: nat)
    requires
        n <= slots.len(),
    ensures
        ({
            let after = sweep_prefix(names, slots, n);
            &&& after.slots.len() == slots.len()
            &&& forall|i: int| n <= i < slots.len() ==> (#[trigger] after.slots[i]) == slots[i]
            &&& forall|i: int|
                0 <= i < slots.len() && slots[i] is Done ==> (#[trigger] after.slots[i])
                    == slots[i]
            &&& forall|i: int|
                0 <= i < slots.len() && (#[trigger] after.slots[i]) is Pending ==> after.slots[i]
                    == slots[i]
            &&& after.failure is None ==> pending_count(after.slots, n) == after.deferred
        }),
    decreases n,
{
    if n > 0 {
        lemma_sweep_frame(names, slots, (n - 1) as nat);
        let before = sweep_prefix(names, slots, (n - 1) as nat);
        let after = sweep_prefix(names, slots, n);
        assert(after == sweep_step(names, before, n - 1));
        assert(before.slots[n - 1] == slots[n - 1]);
        if after.failure is None {
            lemma_pending_count_agree(after.slots, before.slots, (n - 1) as nat);
        }
    }
}

/// Resolution that succeeds leaves every entry resolved.
pub proof fn lemma_resolve_complete(names: Seq<Seq<char>>, slots: Seq<Slot>, left: nat)
    requires
        pending_count(slots, slots.len()) <= left,
    ensures
        resolve(names, slots, left).slots.len() == slots.len(),
        resolve(names, slots, left).failure is None ==> all_done(resolve(names, slots, left).slots),
    decreases left,
{
    if left == 0 {
        lemma_pending_count(slots, slots.len());
    } else {
        let outcome = sweep_all(names, slots);
        lemma_sweep_frame(names, slots, slots.len());
        if outcome.failure is None && outcome.deferred < left {
            lemma_resolve_complete(names, outcome.slots, outcome.deferred);
        }
    }
}

/// An attempt fails in one way only: a key names no entry.
pub proof fn lemma_assemble_failure_kind(
    tokens: Seq<ReferenceToken>,
    names: Seq<Seq<char>>,
    texts: Seq<Option<Seq<char>>>,
)
    ensures
        assemble(tokens, names, texts) matches Err(failure) ==> failure.kind
            == ErrorKind::NonExistentReference,
    decreases tokens.len(),
{
    if tokens.len() > 0 {
        lemma_assemble_failure_kind(tokens.drop_last(), names, texts);
    }
}

/// Substitution fails as the lexer does, or because a key names no entry.
pub proof fn lemma_substitute_failure_kind(
    source: Seq<char>,
    names: Seq<Seq<char>>,
    texts: Seq<Option<Seq<char>>>,
)
    ensures
        substitute(source, names, texts) matches Err(failure) ==> failure.kind
            == ErrorKind::IllegalSymbol || failure.kind == ErrorKind::EmptyReference
            || failure.kind == ErrorKind::InvalidToken || failure.kind
            == ErrorKind::NonExistentReference,
{
    lemma_reference_lex_failure_kind(source);
    match reference_lex(source) {
        Ok(tokens) => {
            lemma_assemble_failure_kind(tokens, names, texts);
        },
        Err(_) => {},
    }
}

/// A sweep fails as substitution does.
pub proof fn lemma_sweep_failure_kind(names: Seq<Seq<char>>, slots: Seq<Slot>, n: nat)
    ensures
        sweep_prefix(names, slots, n).failure matches Some(failure) ==> failure.kind
            == ErrorKind::IllegalSymbol || failure.kind == ErrorKind::EmptyReference
            || failure.kind == ErrorKind::InvalidToken || failure.kind
            == ErrorKind::NonExistentReference,
    decreases n,
{
    if n > 0 {
        lemma_sweep_failure_kind(names, slots, (n - 1) as nat);
        let before = sweep_prefix(names, slots, (n - 1) as nat);
        assert(sweep_prefix(names, slots, n) == sweep_step(names, before, n - 1));
        match before.slots[n - 1] {
            Slot::Pending(source) => {
                lemma_substitute_failure_kind(source, names, done_texts(before.slots));
            },
            Slot::Done(_) => {},
        }
    }
}

/// A sweep that has failed stays as it is.
pub proof fn lemma_sweep_failure(names: Seq<Seq<char>>, slots: Seq<Slot>, n: nat, m: nat)
    requires
        n <= m,
        sweep_prefix(names, slots, n).failure is Some,
    ensures
        sweep_prefix(names, slots, m) == sweep_prefix(names, slots, n),
    decreases m,
{
    if n < m {
        lemma_sweep_failure(names, slots, n, (m - 1) as nat);
    }
}

/// Attempts to splice the tokens together against the table.
///
/// Gives the text where every key names a resolved entry, nothing where
/// the first key that does not names a pending entry, and fails where it
/// names none.
pub fn preprocessor_token_assembly_attempt(
    tokens: Vec<PreprocessorToken>,
    keys: &KeyTable,
) -> (result:
    Result<Option<String>, Error>)
    ensures
        match result {
            Ok(Some(text)) => assemble(reference_views(tokens@), keys.names(), keys.texts())
                == Ok::<Option<Seq<char>>, Failure>(Some(text@)),
            Ok(None) => assemble(reference_views(tokens@), keys.names(), keys.texts()) == Ok::<
                Option<Seq<char>>,
                Failure,
            >(None),
            Err(e) => assemble(reference_views(tokens@), keys.names(), keys.texts()) == Err::<
                Option<Seq<char>>,
                Failure,
            >(e@),
        },
{
    let ghost all = reference_views(tokens@);
    let ghost names = keys.names();
    let ghost texts = keys.texts();
    let mut assembled_string = String::new();
    let mut i: usize = 0;
    assert(all.take(0) =~= Seq::<ReferenceToken>::empty());
    while i < tokens.len()
        invariant
            0 <= i <= tokens.len(),
            all == reference_views(tokens@),
            names == keys.names(),
            texts == keys.texts(),
            assemble(all.take(i as int), names, texts) == Ok::<Option<Seq<char>>, Failure>(
                Some(assembled_string@),
            ),
        decreases tokens.len() - i,
    {
        proof {
            assert(all.take(i + 1).drop_last() =~= all.take(i as int));
            assert(all.take(i + 1).last() == tokens@[i as int]@);
            assert(assemble(all.take(i + 1), names, texts) == assemble_step(
                assemble(all.take(i as int), names, texts),
                tokens@[i as int]@,
                names,
                texts,
            ));
        }
        match &tokens[i] {
            PreprocessorToken::Raw(raw) => {
                assembled_string.append(raw.as_str());
            },
            PreprocessorToken::Key(key) => {
                let found = keys.get(key);
                proof {
                    match position(names, key@) {
                        Some(place) => {
                            assert(texts[place] == keys.entries@[place].value.resolved());
                        },
                        None => {},
                    }
                }
                match found {
                    None => {
                        proof {
                            lemma_assemble_settled(all, names, texts, (i + 1) as nat);
                        }
                        return Err(Error::named(ErrorKind::NonExistentReference, key.as_str()));
                    },
                    Some(AnyPreprocessable::Name(Preprocessable::Preprocessed(name))) => {
                        assembled_string.append(name.as_str());
                    },
                    Some(AnyPreprocessable::String(Preprocessable::Preprocessed(string))) => {
                        assembled_string.append(string.as_str());
                    },
                    Some(_) => {
                        proof {
                            lemma_assemble_settled(all, names, texts, (i + 1) as nat);
                        }
                        return Ok(None);
                    },
                }
            },
        }
        i = i + 1;
    }
    assert(all.take(tokens.len() as int) =~= all);
    Ok(Some(assembled_string))
}

/// An attempt that has ended without a text, or has failed, stays as it
/// is however many tokens follow.
pub proof fn lemma_assemble_settled(
    tokens: Seq<ReferenceToken>,
    names: Seq<Seq<char>>,
    texts: Seq<Option<Seq<char>>>,
    n: nat,
)
    requires
        n <= tokens.len(),
        !(assemble(tokens.take(n as int), names, texts) matches Ok(Some(_))),
    ensures
        assemble(tokens, names, texts) == assemble(tokens.take(n as int), names, texts),
    decreases tokens.len(),
{
    if n == tokens.len() {
        assert(tokens.take(n as int) =~= tokens);
    } else {
        assert(tokens.drop_last().take(n as int) =~= tokens.take(n as int));
        lemma_assemble_settled(tokens.drop_last(), names, texts, n);
    }
}

/// Sweeps once over the table: every pending entry is attempted, in the
/// order of the table, and resolved in place where the attempt gives a
/// text.  Gives the number of entries that were deferred.
pub fn sweep(keys: &mut KeyTable, common_keys: &CommonKeyable) -> (result: Result<usize, Error>)
    ensures
        ({
            let prefix = common_keys.prefix@;
            let outcome = sweep_all(old(keys).names(), old(keys).slots(prefix));
            &&& final(keys).names() == old(keys).names()
            &&& final(keys).slots(prefix) == outcome.slots
            &&& match result {
                Ok(deferred) => outcome.failure is None && deferred == outcome.deferred,
                Err(e) => outcome.failure == Some(e@),
            }
        }),
{
    let ghost prefix = common_keys.prefix@;
    let ghost names = keys.names();
    let ghost slots = keys.slots(prefix);
    let count = keys.len();
    let mut deferred: usize = 0;
    let mut i: usize = 0;
    while i < count
        invariant
            0 <= i <= count,
            count == keys.entries@.len(),
            count == slots.len(),
            prefix == common_keys.prefix@,
            names == old(keys).names(),
            slots == old(keys).slots(prefix),
            keys.names() == names,
            keys.slots(prefix) == sweep_prefix(names, slots, i as nat).slots,
            sweep_prefix(names, slots, i as nat).failure is None,
            deferred == sweep_prefix(names, slots, i as nat).deferred,
            deferred <= i,
        decreases count - i,
    {
        let ghost before = sweep_prefix(names, slots, i as nat);
        let tokens = match &keys.entries[i].value {
            AnyPreprocessable::Name(Preprocessable::NotPreprocessed(name)) => Some(
                name.into_preprocessor_tokens(common_keys),
            ),
            AnyPreprocessable::String(Preprocessable::NotPreprocessed(string)) => Some(
                string.into_preprocessor_tokens(common_keys),
            ),
            _ => None,
        };
        proof {
            assert(before.slots[i as int] == keys.entries@[i as int].value.slot(prefix));
            keys.lemma_texts_of_slots(prefix);
            assert(sweep_prefix(names, slots, (i + 1) as nat) == sweep_step(
                names,
                before,
                i as int,
            ));
        }
        match tokens {
            None => {},
            Some(Err(e)) => {
                proof {
                    lemma_sweep_failure(names, slots, (i + 1) as nat, count as nat);
                }
                return Err(e);
            },
            Some(Ok(tokens)) => {
                match preprocessor_token_assembly_attempt(tokens, keys) {
                    Err(e) => {
                        proof {
                            lemma_sweep_failure(names, slots, (i + 1) as nat, count as nat);
                        }
                        return Err(e);
                    },
                    Ok(None) => {
                        deferred = deferred + 1;
                    },
                    Ok(Some(text)) => {
                        keys.settle(i, text);
                    },
                }
            },
        }
        i = i + 1;
    }
    Ok(deferred)
}

fn unresolved_keys(keys: &KeyTable, Ghost(prefix): Ghost<Seq<char>>) -> (names: Vec<String>)
    ensures
        crate::text::views(names@) == pending_names(
            keys.names(),
            keys.slots(prefix),
            keys.entries@.len(),
        ),
{
    let mut names: Vec<String> = Vec::new();
    let mut i: usize = 0;
    assert(crate::text::views(names@) =~= Seq::<Seq<char>>::empty());
    while i < keys.entries.len()
        invariant
            0 <= i <= keys.entries@.len(),
            crate::text::views(names@) == pending_names(
                keys.names(),
                keys.slots(prefix),
                i as nat,
            ),
        decreases keys.entries@.len() - i,
    {
        let ghost before = crate::text::views(names@);
        let pending = match &keys.entries[i].value {
            AnyPreprocessable::Name(Preprocessable::NotPreprocessed(_)) => true,
            AnyPreprocessable::String(Preprocessable::NotPreprocessed(_)) => true,
            _ => false,
        };
        if pending {
            names.push(keys.entries[i].key.clone());
            assert(crate::text::views(names@) =~= before.push(keys.entries@[i as int].key@));
        }
        i = i + 1;
    }
    names
}

/// Resolves the key table in place, sweep by sweep.
///
/// Succeeds where the sweeps come to an end with no entry deferred.  A
/// sweep that fails ends the resolution with its failure; a sweep that
/// defers as many entries as the one before it ends it with
/// `MutualReference`, whose error names every entry that is still pending.
pub fn preprocess_key_name_pairs(keys: &mut KeyTable, common_keys: &CommonKeyable) -> (result:
    Result<(), Error>)
    ensures
        ({
            let prefix = common_keys.prefix@;
            let names = old(keys).names();
            let outcome = resolve(names, old(keys).slots(prefix), names.len());
            &&& final(keys).names() == names
            &&& final(keys).slots(prefix) == outcome.slots
            &&& match result {
                Ok(()) => outcome.failure is None,
                Err(e) => outcome.failure == Some(e@),
            }
        }),
{
    let ghost prefix = common_keys.prefix@;
    let ghost names = keys.names();
    let ghost outcome = resolve(names, keys.slots(prefix), names.len());
    let mut left = keys.len();
    while left != 0
        invariant
            prefix == common_keys.prefix@,
            names == old(keys).names(),
            outcome == resolve(names, old(keys).slots(prefix), names.len()),
            keys.names() == names,
            keys.entries@.len() == names.len(),
            resolve(names, keys.slots(prefix), left as nat) == outcome,
        decreases left,
    {
        let ghost slots = keys.slots(prefix);
        proof {
            lemma_sweep_len(names, slots, slots.len());
            lemma_sweep_failure_kind(names, slots, slots.len());
        }
        match sweep(keys, common_keys) {
            Err(e) => {
                return Err(e);
            },
            Ok(now_left) => {
                if now_left >= left {
                    let unresolved = unresolved_keys(keys, Ghost(prefix));
                    return Err(Error::naming(ErrorKind::MutualReference, unresolved));
                }
                left = now_left;
            },
        }
    }
    Ok(())
}

/// Where every entry is resolved, every attempt gives a text or fails.
pub proof fn lemma_assemble_resolved(
    tokens: Seq<ReferenceToken>,
    names: Seq<Seq<char>>,
    texts: Seq<Option<Seq<char>>>,
)
    requires
        names.len() == texts.len(),
        forall|i: int| 0 <= i < texts.len() ==> (#[trigger] texts[i]) is Some,
    ensures
        !(assemble(tokens, names, texts) matches Ok(None)),
    decreases tokens.len(),
{
    if tokens.len() > 0 {
        lemma_assemble_resolved(tokens.drop_last(), names, texts);
        match tokens.last() {
            ReferenceToken::Raw(_) => {},
            ReferenceToken::Key(name) => {
                crate::preprocessor::table::lemma_position(names, name);
            },
        }
    }
}

/// Whether `after` is `before` with its keys replaced: a string that is
/// resolved already stays as it is.
pub open spec fn substituted_one(
    before: Preprocessable<String>,
    after: Preprocessable<String>,
    names: Seq<Seq<char>>,
    texts: Seq<Option<Seq<char>>>,
) -> bool {
    match before {
        Preprocessable::Preprocessed(_) => after == before,
        Preprocessable::NotPreprocessed(source) => substitute(source@, names, texts)
            == Ok::<Option<Seq<char>>, Failure>(after.resolved()) && after.resolved() is Some,
    }
}

/// Whether the first `done` strings of `after` are those of `before` with
/// their keys replaced, and the others are as they were.
pub open spec fn substituted(
    before: Seq<Preprocessable<String>>,
    after: Seq<Preprocessable<String>>,
    names: Seq<Seq<char>>,
    texts: Seq<Option<Seq<char>>>,
    done: nat,
) -> bool {
    &&& after.len() == before.len()
    &&& forall|i: int|
        0 <= i < before.len() ==> if i < done {
            substituted_one(before[i], #[trigger] after[i], names, texts)
        } else {
            after[i] == before[i]
        }
}

/// How far substitution gets.
pub struct Substitution {
    /// How many strings have their final text.
    pub done: nat,
    /// The failure of the string behind them, if there is one.
    pub failure: Option<Failure>,
}

/// The string at `place` added to the strings that have their final text.
pub open spec fn substitute_step(
    before: Substitution,
    string: Preprocessable<String>,
    names: Seq<Seq<char>>,
    texts: Seq<Option<Seq<char>>>,
) -> Substitution {
    if before.failure is Some {
        before
    } else {
        match string {
            Preprocessable::Preprocessed(_) => Substitution {
                done: before.done + 1,
                failure: None,
            },
            Preprocessable::NotPreprocessed(source) => match substitute(source@, names, texts) {
                Err(failure) => Substitution { done: before.done, failure: Some(failure) },
                Ok(_) => Substitution { done: before.done + 1, failure: None },
            },
        }
    }
}

/// Substitution in the first `n` strings, one after the other.
pub open spec fn substitute_prefix(
    strings: Seq<Preprocessable<String>>,
    names: Seq<Seq<char>>,
    texts: Seq<Option<Seq<char>>>,
    n: nat,
) -> Substitution
    decreases n,
{
    if n == 0 {
        Substitution { done: 0, failure: None }
    } else {
        substitute_step(
            substitute_prefix(strings, names, texts, (n - 1) as nat),
            strings[n - 1],
            names,
            texts,
        )
    }
}

/// Substitution that has failed stays as it is.
pub proof fn lemma_substitute_failure(
    strings: Seq<Preprocessable<String>>,
    names: Seq<Seq<char>>,
    texts: Seq<Option<Seq<char>>>,
    n: nat,
    m: nat,
)
    requires
        n <= m,
        substitute_prefix(strings, names, texts, n).failure is Some,
    ensures
        substitute_prefix(strings, names, texts, m) == substitute_prefix(strings, names, texts, n),
    decreases m,
{
    if n < m {
        lemma_substitute_failure(strings, names, texts, n, (m - 1) as nat);
    }
}

/// Replaces the keys in every string that is not resolved yet.
///
/// The table must be resolved.  Succeeds where every string is accepted
/// by the grammar and names only keys of the table; otherwise the first
/// string that is not gives the error, the strings before it have their
/// final text and the others are as they were.
pub fn preprocess_strings(
    preprocessable_strings: &mut Vec<Preprocessable<String>>,
    keys: &KeyTable,
    common_keys: &CommonKeyable,
) -> (result: Result<(), Error>)
    requires
        keys.all_resolved(),
    ensures
        ({
            let before = old(preprocessable_strings)@;
            let outcome = substitute_prefix(before, keys.names(), keys.texts(), before.len());
            &&& substituted(
                before,
                final(preprocessable_strings)@,
                keys.names(),
                keys.texts(),
                outcome.done,
            )
            &&& match result {
                Ok(()) => outcome.failure is None && outcome.done == before.len(),
                Err(e) => outcome.failure == Some(e@),
            }
        }),
{
    let ghost before = preprocessable_strings@;
    let ghost names = keys.names();
    let ghost texts = keys.texts();
    let count = preprocessable_strings.len();
    let mut i: usize = 0;
    while i < count
        invariant
            0 <= i <= count,
            count == before.len(),
            before == old(preprocessable_strings)@,
            names == keys.names(),
            texts == keys.texts(),
            keys.all_resolved(),
            substitute_prefix(before, names, texts, i as nat) == (Substitution {
                done: i as nat,
                failure: None,
            }),
            substituted(before, preprocessable_strings@, names, texts, i as nat),
        decreases count - i,
    {
        let tokens = match &preprocessable_strings[i] {
            Preprocessable::NotPreprocessed(source) => Some(
                source.into_preprocessor_tokens(common_keys),
            ),
            Preprocessable::Preprocessed(_) => None,
        };
        proof {
            assert(before[i as int] == preprocessable_strings@[i as int]);
            assert(substitute_prefix(before, names, texts, (i + 1) as nat) == substitute_step(
                substitute_prefix(before, names, texts, i as nat),
                before[i as int],
                names,
                texts,
            ));
        }
        match tokens {
            None => {},
            Some(Err(e)) => {
                proof {
                    lemma_substitute_failure(before, names, texts, (i + 1) as nat, count as nat);
                }
                return Err(e);
            },
            Some(Ok(tokens)) => {
                proof {
                    lemma_assemble_resolved(reference_views(tokens@), names, texts);
                }
                match preprocessor_token_assembly_attempt(tokens, keys) {
                    Err(e) => {
                        proof {
                            lemma_substitute_failure(
                                before,
                                names,
                                texts,
                                (i + 1) as nat,
                                count as nat,
                            );
                        }
                        return Err(e);
                    },
                    Ok(None) => {},
                    Ok(Some(text)) => {
                        preprocessable_strings.set(i, Preprocessable::Preprocessed(text));
                    },
                }
            },
        }
        i = i + 1;
    }
    Ok(())
}

} // verus!
