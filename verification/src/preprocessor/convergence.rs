//! What resolution comes to: a table whose references form no cycle is
//! resolved in full, and a table with a cycle is not.

use vstd::prelude::*;

use crate::error::{ErrorKind, Failure};
use crate::preprocessor::resolver::{
    all_done, assemble, assemble_step, lemma_assemble_settled, lemma_pending_count,
    lemma_sweep_frame, pending_count, pending_names, resolve, substitute, sweep_all,
    sweep_prefix, sweep_step,
};
use crate::preprocessor::table::{distinct, done_texts, lemma_position, position, Slot};
use crate::preprocessor::token::{reference_lex, ReferenceToken};

verus! {

/// Whether every key among the tokens names an entry.
pub open spec fn keys_exist(tokens: Seq<ReferenceToken>, names: Seq<Seq<char>>) -> bool {
    forall|t: int|
        0 <= t < tokens.len() ==> ((#[trigger] tokens[t]) matches ReferenceToken::Key(name)
            ==> position(names, name) is Some)
}

/// Whether the text of a pending entry is accepted by the grammar and
/// names only keys of the table.
pub open spec fn sound_source(source: Seq<char>, names: Seq<Seq<char>>) -> bool {
    match reference_lex(source) {
        Ok(tokens) => keys_exist(tokens, names),
        Err(_) => false,
    }
}

/// Whether every pending entry is accepted by the grammar and names only
/// keys of the table.
pub open spec fn sound(names: Seq<Seq<char>>, slots: Seq<Slot>) -> bool {
    forall|i: int|
        0 <= i < slots.len() ==> ((#[trigger] slots[i]) matches Slot::Pending(source)
            ==> sound_source(source, names))
}

/// Whether a key among the tokens names an entry of the set.
pub open spec fn refers_into(
    tokens: Seq<ReferenceToken>,
    names: Seq<Seq<char>>,
    stuck: Set<int>,
) -> bool {
    exists|t: int|
        0 <= t < tokens.len() && ((#[trigger] tokens[t]) matches ReferenceToken::Key(name)
            && position(names, name) matches Some(place) && stuck.contains(place))
}

/// Whether every entry of the set is pending and refers to an entry of
/// the set: a key that refers to itself, two keys that refer to each
/// other, or any longer cycle with what hangs on it.
pub open spec fn closed(names: Seq<Seq<char>>, slots: Seq<Slot>, stuck: Set<int>) -> bool {
    forall|i: int|
        #[trigger] stuck.contains(i) ==> 0 <= i < slots.len() && (slots[i] matches Slot::Pending(
            source,
        ) && reference_lex(source) matches Ok(tokens) && refers_into(tokens, names, stuck))
}

/// An attempt whose keys all name entries does not fail.
pub proof fn lemma_assemble_sound(
    tokens: Seq<ReferenceToken>,
    names: Seq<Seq<char>>,
    texts: Seq<Option<Seq<char>>>,
)
    requires
        keys_exist(tokens, names),
    ensures
        assemble(tokens, names, texts) is Ok,
    decreases tokens.len(),
{
    if tokens.len() > 0 {
        let front = tokens.drop_last();
        assert forall|t: int| 0 <= t < front.len() implies ((#[trigger] front[t]) matches ReferenceToken::Key(
            name,
        ) ==> position(names, name) is Some) by {
            assert(front[t] == tokens[t]);
        }
        lemma_assemble_sound(front, names, texts);
        assert(tokens.last() == tokens[tokens.len() - 1]);
    }
}

/// An attempt that meets a key whose entry is pending gives no text.
pub proof fn lemma_assemble_deferred(
    tokens: Seq<ReferenceToken>,
    names: Seq<Seq<char>>,
    texts: Seq<Option<Seq<char>>>,
    t: int,
)
    requires
        keys_exist(tokens, names),
        0 <= t < tokens.len(),
        tokens[t] matches ReferenceToken::Key(name) && position(names, name) matches Some(place)
            && texts[place] is None,
    ensures
        assemble(tokens, names, texts) == Ok::<Option<Seq<char>>, Failure>(None),
{
    let before = tokens.take(t);
    let upto = tokens.take(t + 1);
    assert forall|u: int| 0 <= u < before.len() implies ((#[trigger] before[u]) matches ReferenceToken::Key(
        name,
    ) ==> position(names, name) is Some) by {
        assert(before[u] == tokens[u]);
    }
    lemma_assemble_sound(before, names, texts);
    assert(upto.drop_last() =~= before);
    assert(upto.last() == tokens[t]);
    assert(assemble(upto, names, texts) == assemble_step(
        assemble(before, names, texts),
        tokens[t],
        names,
        texts,
    ));
    lemma_assemble_settled(tokens, names, texts, (t + 1) as nat);
}

/// Whether the table is as the sweeps leave it: an entry that is pending
/// is as it was, and every entry of the set is pending.
pub open spec fn kept(before: Seq<Slot>, after: Seq<Slot>, stuck: Set<int>) -> bool {
    &&& after.len() == before.len()
    &&& forall|i: int|
        0 <= i < after.len() && (#[trigger] after[i]) is Pending ==> after[i] == before[i]
    &&& forall|i: int| #[trigger] stuck.contains(i) ==> 0 <= i < after.len() && after[i] is Pending
}

proof fn lemma_step_stuck(
    names: Seq<Seq<char>>,
    origin: Seq<Slot>,
    before: crate::preprocessor::resolver::Sweep,
    stuck: Set<int>,
    place: int,
)
    requires
        names.len() == origin.len(),
        sound(names, origin),
        closed(names, origin, stuck),
        kept(origin, before.slots, stuck),
        before.failure is None,
        0 <= place < before.slots.len(),
    ensures
        ({
            let after = sweep_step(names, before, place);
            &&& after.failure is None
            &&& kept(origin, after.slots, stuck)
            &&& after.deferred >= before.deferred
            &&& stuck.contains(place) ==> after.deferred >= 1
        }),
{
    let after = sweep_step(names, before, place);
    let texts = done_texts(before.slots);
    match before.slots[place] {
        Slot::Done(_) => {
            assert(!stuck.contains(place));
        },
        Slot::Pending(source) => {
            assert(before.slots[place] == origin[place]);
            assert(sound_source(source, names));
            let tokens = reference_lex(source)->Ok_0;
            lemma_assemble_sound(tokens, names, texts);
            assert(substitute(source, names, texts) == assemble(tokens, names, texts));
            if stuck.contains(place) {
                let t = choose|t: int|
                    0 <= t < tokens.len() && ((#[trigger] tokens[t]) matches ReferenceToken::Key(
                        name,
                    ) && position(names, name) matches Some(target) && stuck.contains(target));
                let target = position(names, tokens[t]->Key_0)->0;
                lemma_position(names, tokens[t]->Key_0);
                assert(stuck.contains(target));
                assert(before.slots[target] is Pending);
                assert(texts[target] is None);
                lemma_assemble_deferred(tokens, names, texts, t);
                assert(after.slots == before.slots);
            } else {
                match assemble(tokens, names, texts) {
                    Ok(Some(text)) => {
                        assert(after.slots == before.slots.update(place, Slot::Done(text)));
                        assert forall|i: int|
                            0 <= i < after.slots.len() && (#[trigger] after.slots[i])
                                is Pending implies after.slots[i] == origin[i] by {
                            assert(i != place);
                            assert(after.slots[i] == before.slots[i]);
                        }
                        assert forall|i: int| #[trigger] stuck.contains(i) implies 0 <= i
                            < after.slots.len() && after.slots[i] is Pending by {
                            assert(i != place);
                            assert(before.slots[i] is Pending);
                        }
                    },
                    _ => {
                        assert(after.slots == before.slots);
                    },
                }
            }
        },
    }
}

proof fn lemma_sweep_stuck(
    names: Seq<Seq<char>>,
    origin: Seq<Slot>,
    slots: Seq<Slot>,
    stuck: Set<int>,
    n: nat,
)
    requires
        names.len() == origin.len(),
        sound(names, origin),
        closed(names, origin, stuck),
        kept(origin, slots, stuck),
        n <= slots.len(),
    ensures
        ({
            let after = sweep_prefix(names, slots, n);
            &&& after.failure is None
            &&& kept(origin, after.slots, stuck)
            &&& forall|i: int| 0 <= i < n && #[trigger] stuck.contains(i) ==> after.deferred >= 1
        }),
    decreases n,
{
    if n > 0 {
        lemma_sweep_stuck(names, origin, slots, stuck, (n - 1) as nat);
        let before = sweep_prefix(names, slots, (n - 1) as nat);
        let after = sweep_prefix(names, slots, n);
        assert(after == sweep_step(names, before, n - 1));
        lemma_step_stuck(names, origin, before, stuck, n - 1);
    }
}

proof fn lemma_resolve_stuck(
    names: Seq<Seq<char>>,
    origin: Seq<Slot>,
    slots: Seq<Slot>,
    stuck: Set<int>,
    left: nat,
)
    requires
        names.len() == origin.len(),
        sound(names, origin),
        closed(names, origin, stuck),
        kept(origin, slots, stuck),
        exists|i: int| stuck.contains(i),
        left >= 1,
    ensures
        resolve(names, slots, left).failure == Some(
            Failure::naming(
                ErrorKind::MutualReference,
                pending_names(names, resolve(names, slots, left).slots, names.len()),
            ),
        ),
        kept(origin, resolve(names, slots, left).slots, stuck),
    decreases left,
{
    lemma_sweep_stuck(names, origin, slots, stuck, slots.len());
    let outcome = sweep_all(names, slots);
    let i = choose|i: int| stuck.contains(i);
    assert(0 <= i < slots.len() && stuck.contains(i));
    if outcome.deferred < left {
        lemma_resolve_stuck(names, origin, outcome.slots, stuck, outcome.deferred);
    }
}

/// Resolution of a table with a cycle fails with `MutualReference`, names
/// every entry that is still pending, and leaves every entry of the cycle
/// as it was.
///
/// The cycle is given as a set of pending entries each of which refers to
/// an entry of the set: one key that refers to itself, two keys that refer
/// to each other, and so on.  Every pending entry of the table must be
/// accepted by the grammar and name only keys of the table, since a sweep
/// that meets another failure ends with that failure.
pub proof fn lemma_mutual_reference(names: Seq<Seq<char>>, slots: Seq<Slot>, stuck: Set<int>)
    requires
        names.len() == slots.len(),
        sound(names, slots),
        closed(names, slots, stuck),
        exists|i: int| stuck.contains(i),
    ensures
        resolve(names, slots, names.len()).failure == Some(
            Failure::naming(
                ErrorKind::MutualReference,
                pending_names(names, resolve(names, slots, names.len()).slots, names.len()),
            ),
        ),
        forall|i: int|
            stuck.contains(i) ==> (#[trigger] resolve(names, slots, names.len()).slots[i])
                == slots[i],
{
    let i = choose|i: int| stuck.contains(i);
    assert(0 <= i < slots.len());
    assert(slots[i] is Pending);
    lemma_resolve_stuck(names, slots, slots, stuck, names.len());
}

/// The final text of an entry, by what it refers to: the text of a
/// resolved entry is its text, the text of a pending entry is its tokens
/// with every key replaced by the final text of the entry it names.
/// `depth` bounds how many references are followed one through the other;
/// an entry that needs more has no text.
pub open spec fn expansion(
    names: Seq<Seq<char>>,
    slots: Seq<Slot>,
    place: int,
    depth: nat,
) -> Option<Seq<char>>
    decreases depth, 0nat,
{
    match slots[place] {
        Slot::Done(text) => Some(text),
        Slot::Pending(source) => if depth == 0 {
            None
        } else {
            match reference_lex(source) {
                Err(_) => None,
                Ok(tokens) => expand_tokens(names, slots, tokens, (depth - 1) as nat),
            }
        },
    }
}

/// The tokens with every key replaced by the final text of the entry it
/// names.
pub open spec fn expand_tokens(
    names: Seq<Seq<char>>,
    slots: Seq<Slot>,
    tokens: Seq<ReferenceToken>,
    depth: nat,
) -> Option<Seq<char>>
    decreases depth, 1 + tokens.len(),
{
    if tokens.len() == 0 {
        Some(Seq::empty())
    } else {
        match expand_tokens(names, slots, tokens.drop_last(), depth) {
            None => None,
            Some(text) => match tokens.last() {
                ReferenceToken::Raw(raw) => Some(text + raw),
                ReferenceToken::Key(name) => match position(names, name) {
                    None => None,
                    Some(place) => match expansion(names, slots, place, depth) {
                        None => None,
                        Some(resolved) => Some(text + resolved),
                    },
                },
            },
        }
    }
}

/// Whether every key among the tokens names an entry that is resolved or
/// has a rank below the bound.
pub open spec fn refers_below(
    tokens: Seq<ReferenceToken>,
    names: Seq<Seq<char>>,
    slots: Seq<Slot>,
    rank: Seq<nat>,
    bound: nat,
) -> bool {
    forall|t: int|
        0 <= t < tokens.len() ==> ((#[trigger] tokens[t]) matches ReferenceToken::Key(name) ==> (
        position(names, name) matches Some(place) && (slots[place] is Done || rank[place]
            < bound)))
}

/// Whether the references of the table form no cycle: the entries have
/// ranks, and every pending entry is accepted by the grammar and refers
/// only to entries that are resolved or have a lower rank.
pub open spec fn ranked(names: Seq<Seq<char>>, slots: Seq<Slot>, rank: Seq<nat>) -> bool {
    &&& rank.len() == slots.len()
    &&& forall|i: int|
        0 <= i < slots.len() ==> ((#[trigger] slots[i]) matches Slot::Pending(source) ==> (
        reference_lex(source) matches Ok(tokens) && refers_below(
            tokens,
            names,
            slots,
            rank,
            rank[i],
        )))
}

/// A text that is reached with one bound is reached with every larger
/// bound.
pub proof fn lemma_expansion_monotone(
    names: Seq<Seq<char>>,
    slots: Seq<Slot>,
    place: int,
    depth: nat,
    deeper: nat,
)
    requires
        depth <= deeper,
        expansion(names, slots, place, depth) is Some,
    ensures
        expansion(names, slots, place, deeper) == expansion(names, slots, place, depth),
    decreases depth, 0nat,
{
    match slots[place] {
        Slot::Done(_) => {},
        Slot::Pending(source) => {
            let tokens = reference_lex(source)->Ok_0;
            lemma_expand_tokens_monotone(
                names,
                slots,
                tokens,
                (depth - 1) as nat,
                (deeper - 1) as nat,
            );
        },
    }
}

/// A text that is reached with one bound is reached with every larger
/// bound.
pub proof fn lemma_expand_tokens_monotone(
    names: Seq<Seq<char>>,
    slots: Seq<Slot>,
    tokens: Seq<ReferenceToken>,
    depth: nat,
    deeper: nat,
)
    requires
        depth <= deeper,
        expand_tokens(names, slots, tokens, depth) is Some,
    ensures
        expand_tokens(names, slots, tokens, deeper) == expand_tokens(names, slots, tokens, depth),
    decreases depth, 1 + tokens.len(),
{
    if tokens.len() > 0 {
        lemma_expand_tokens_monotone(names, slots, tokens.drop_last(), depth, deeper);
        match tokens.last() {
            ReferenceToken::Raw(_) => {},
            ReferenceToken::Key(name) => {
                let place = position(names, name)->0;
                lemma_expansion_monotone(names, slots, place, depth, deeper);
            },
        }
    }
}

/// Whether the table is as the sweeps leave it: an entry that is pending
/// is as it was, and an entry that is resolved has its expansion as its
/// text.
pub open spec fn settled(
    names: Seq<Seq<char>>,
    origin: Seq<Slot>,
    rank: Seq<nat>,
    slots: Seq<Slot>,
) -> bool {
    &&& slots.len() == origin.len()
    &&& forall|i: int|
        0 <= i < slots.len() ==> match #[trigger] slots[i] {
            Slot::Pending(_) => slots[i] == origin[i],
            Slot::Done(text) => expansion(names, origin, i, rank[i] + 1) == Some(text),
        }
}

/// An attempt that gives a text gives the expansion of the tokens.
proof fn lemma_assemble_expands(
    names: Seq<Seq<char>>,
    origin: Seq<Slot>,
    rank: Seq<nat>,
    slots: Seq<Slot>,
    tokens: Seq<ReferenceToken>,
    bound: nat,
)
    requires
        names.len() == origin.len(),
        rank.len() == origin.len(),
        settled(names, origin, rank, slots),
        refers_below(tokens, names, origin, rank, bound),
        assemble(tokens, names, done_texts(slots)) matches Ok(Some(_)),
    ensures
        expand_tokens(names, origin, tokens, bound) == assemble(
            tokens,
            names,
            done_texts(slots),
        )->Ok_0,
    decreases tokens.len(),
{
    let texts = done_texts(slots);
    if tokens.len() > 0 {
        let front = tokens.drop_last();
        assert forall|t: int| 0 <= t < front.len() implies ((#[trigger] front[t]) matches ReferenceToken::Key(
            name,
        ) ==> (position(names, name) matches Some(place) && (origin[place] is Done || rank[place]
            < bound))) by {
            assert(front[t] == tokens[t]);
        }
        assert(assemble(tokens, names, texts) == assemble_step(
            assemble(front, names, texts),
            tokens.last(),
            names,
            texts,
        ));
        lemma_assemble_expands(names, origin, rank, slots, front, bound);
        assert(tokens.last() == tokens[tokens.len() - 1]);
        match tokens.last() {
            ReferenceToken::Raw(_) => {},
            ReferenceToken::Key(name) => {
                lemma_position(names, name);
                let place = position(names, name)->0;
                assert(texts[place] is Some);
                assert(slots[place] is Done);
                let text = slots[place]->Done_0;
                assert(expansion(names, origin, place, rank[place] + 1) == Some(text));
                if origin[place] is Done {
                    assert(expansion(names, origin, place, bound) == Some(text));
                } else {
                    lemma_expansion_monotone(names, origin, place, rank[place] + 1, bound);
                }
            },
        }
    }
}

/// An attempt whose keys all name resolved entries gives a text.
proof fn lemma_assemble_ready(
    tokens: Seq<ReferenceToken>,
    names: Seq<Seq<char>>,
    texts: Seq<Option<Seq<char>>>,
)
    requires
        names.len() == texts.len(),
        forall|t: int|
            0 <= t < tokens.len() ==> ((#[trigger] tokens[t]) matches ReferenceToken::Key(name)
                ==> (position(names, name) matches Some(place) && texts[place] is Some)),
    ensures
        assemble(tokens, names, texts) matches Ok(Some(_)),
    decreases tokens.len(),
{
    if tokens.len() > 0 {
        let front = tokens.drop_last();
        assert forall|t: int| 0 <= t < front.len() implies ((#[trigger] front[t]) matches ReferenceToken::Key(
            name,
        ) ==> (position(names, name) matches Some(place) && texts[place] is Some)) by {
            assert(front[t] == tokens[t]);
        }
        lemma_assemble_ready(front, names, texts);
        assert(tokens.last() == tokens[tokens.len() - 1]);
    }
}

/// Whether no pending entry has a rank below that of the entry at `least`.
pub open spec fn least_pending(slots: Seq<Slot>, rank: Seq<nat>, least: int) -> bool {
    &&& 0 <= least < slots.len()
    &&& slots[least] is Pending
    &&& forall|i: int|
        0 <= i < slots.len() && (#[trigger] slots[i]) is Pending ==> rank[least] <= rank[i]
}

/// Among the pending entries one has the lowest rank.
proof fn lemma_least_pending(slots: Seq<Slot>, rank: Seq<nat>, n: nat) -> (least: int)
    requires
        n <= slots.len(),
        rank.len() == slots.len(),
        exists|i: int| 0 <= i < n && (#[trigger] slots[i]) is Pending,
    ensures
        0 <= least < n,
        slots[least] is Pending,
        forall|i: int| 0 <= i < n && (#[trigger] slots[i]) is Pending ==> rank[least] <= rank[i],
    decreases n,
{
    if exists|i: int| 0 <= i < n - 1 && (#[trigger] slots[i]) is Pending {
        let before = lemma_least_pending(slots, rank, (n - 1) as nat);
        if slots[n - 1] is Pending && rank[n - 1] < rank[before] {
            n - 1
        } else {
            before
        }
    } else {
        let i = choose|i: int| 0 <= i < n && (#[trigger] slots[i]) is Pending;
        assert(i == n - 1);
        n - 1
    }
}

proof fn lemma_step_settled(
    names: Seq<Seq<char>>,
    origin: Seq<Slot>,
    rank: Seq<nat>,
    start: Seq<Slot>,
    before: crate::preprocessor::resolver::Sweep,
    place: int,
    least: int,
)
    requires
        names.len() == origin.len(),
        ranked(names, origin, rank),
        settled(names, origin, rank, start),
        settled(names, origin, rank, before.slots),
        least_pending(start, rank, least),
        before.failure is None,
        0 <= place < before.slots.len(),
        before.slots[place] == start[place],
        forall|i: int|
            0 <= i < start.len() && (#[trigger] start[i]) is Done ==> before.slots[i] is Done,
    ensures
        ({
            let after = sweep_step(names, before, place);
            &&& after.failure is None
            &&& settled(names, origin, rank, after.slots)
            &&& after.deferred <= before.deferred + if start[place] is Pending {
                1nat
            } else {
                0nat
            }
            &&& place == least ==> after.deferred == before.deferred
        }),
{
    let after = sweep_step(names, before, place);
    let texts = done_texts(before.slots);
    match before.slots[place] {
        Slot::Done(_) => {},
        Slot::Pending(source) => {
            assert(before.slots[place] == origin[place]);
            let tokens = reference_lex(source)->Ok_0;
            assert(refers_below(tokens, names, origin, rank, rank[place]));
            assert(substitute(source, names, texts) == assemble(tokens, names, texts));
            assert forall|t: int| 0 <= t < tokens.len() implies ((#[trigger] tokens[t]) matches ReferenceToken::Key(
                name,
            ) ==> position(names, name) is Some) by {}
            lemma_assemble_sound(tokens, names, texts);
            if place == least {
                assert forall|t: int| 0 <= t < tokens.len() implies ((#[trigger] tokens[t]) matches ReferenceToken::Key(
                    name,
                ) ==> (position(names, name) matches Some(target) && texts[target] is Some)) by {
                    match tokens[t] {
                        ReferenceToken::Key(name) => {
                            lemma_position(names, name);
                            let target = position(names, name)->0;
                            if start[target] is Pending {
                                assert(start[target] == origin[target]);
                                assert(rank[least] <= rank[target]);
                                assert(false);
                            }
                            assert(before.slots[target] is Done);
                        },
                        ReferenceToken::Raw(_) => {},
                    }
                }
                lemma_assemble_ready(tokens, names, texts);
            }
            match assemble(tokens, names, texts) {
                Ok(Some(text)) => {
                    lemma_assemble_expands(names, origin, rank, before.slots, tokens, rank[place]);
                    assert(expansion(names, origin, place, rank[place] + 1) == Some(text));
                    assert(after.slots == before.slots.update(place, Slot::Done(text)));
                    assert forall|i: int| 0 <= i < after.slots.len() implies match #[trigger] after.slots[i] {
                        Slot::Pending(_) => after.slots[i] == origin[i],
                        Slot::Done(done) => expansion(names, origin, i, rank[i] + 1) == Some(done),
                    } by {
                        if i != place {
                            assert(after.slots[i] == before.slots[i]);
                        }
                    }
                },
                _ => {},
            }
        },
    }
}

proof fn lemma_sweep_settled(
    names: Seq<Seq<char>>,
    origin: Seq<Slot>,
    rank: Seq<nat>,
    start: Seq<Slot>,
    least: int,
    n: nat,
)
    requires
        names.len() == origin.len(),
        ranked(names, origin, rank),
        settled(names, origin, rank, start),
        least_pending(start, rank, least),
        n <= start.len(),
    ensures
        ({
            let after = sweep_prefix(names, start, n);
            &&& after.failure is None
            &&& settled(names, origin, rank, after.slots)
            &&& after.deferred <= pending_count(start, n)
            &&& least < n ==> after.deferred < pending_count(start, n)
        }),
    decreases n,
{
    if n > 0 {
        lemma_sweep_settled(names, origin, rank, start, least, (n - 1) as nat);
        lemma_sweep_frame(names, start, (n - 1) as nat);
        let before = sweep_prefix(names, start, (n - 1) as nat);
        let after = sweep_prefix(names, start, n);
        assert(after == sweep_step(names, before, n - 1));
        lemma_step_settled(names, origin, rank, start, before, n - 1, least);
    }
}

proof fn lemma_sweep_without_pending(names: Seq<Seq<char>>, start: Seq<Slot>, n: nat)
    requires
        n <= start.len(),
        all_done(start),
    ensures
        sweep_prefix(names, start, n) == (crate::preprocessor::resolver::Sweep {
            slots: start,
            deferred: 0,
            failure: None,
        }),
    decreases n,
{
    if n > 0 {
        lemma_sweep_without_pending(names, start, (n - 1) as nat);
        let before = sweep_prefix(names, start, (n - 1) as nat);
        assert(sweep_prefix(names, start, n) == sweep_step(names, before, n - 1));
    }
}

proof fn lemma_resolve_settled(
    names: Seq<Seq<char>>,
    origin: Seq<Slot>,
    rank: Seq<nat>,
    start: Seq<Slot>,
    left: nat,
)
    requires
        names.len() == origin.len(),
        ranked(names, origin, rank),
        settled(names, origin, rank, start),
        pending_count(start, start.len()) <= left,
    ensures
        resolve(names, start, left).failure is None,
        all_done(resolve(names, start, left).slots),
        settled(names, origin, rank, resolve(names, start, left).slots),
    decreases left,
{
    lemma_pending_count(start, start.len());
    if left > 0 {
        let outcome = sweep_all(names, start);
        lemma_sweep_frame(names, start, start.len());
        if exists|i: int| 0 <= i < start.len() && (#[trigger] start[i]) is Pending {
            let least = lemma_least_pending(start, rank, start.len());
            lemma_sweep_settled(names, origin, rank, start, least, start.len());
        } else {
            assert(all_done(start)) by {
                assert forall|i: int| 0 <= i < start.len() implies (#[trigger] start[i]) is Done by {
                    if start[i] is Pending {
                        assert(exists|k: int| 0 <= k < start.len() && (#[trigger] start[k]) is Pending);
                    }
                }
            }
            lemma_sweep_without_pending(names, start, start.len());
        }
        lemma_resolve_settled(names, origin, rank, outcome.slots, outcome.deferred);
    }
}

/// Resolution of a table whose references form no cycle succeeds, and
/// leaves every entry resolved to its expansion.
///
/// That there is no cycle is given by ranks: every pending entry is
/// accepted by the grammar and refers only to entries that are resolved or
/// have a lower rank.  The expansion of an entry is defined by the text of
/// the entry and of the entries it refers to alone: the order in which
/// the entries are attempted has no part in it.
pub proof fn lemma_convergence(names: Seq<Seq<char>>, slots: Seq<Slot>, rank: Seq<nat>)
    requires
        names.len() == slots.len(),
        ranked(names, slots, rank),
    ensures
        resolve(names, slots, names.len()).failure is None,
        resolve(names, slots, names.len()).slots.len() == slots.len(),
        forall|i: int|
            0 <= i < slots.len() ==> expansion(names, slots, i, rank[i] + 1) is Some
                && #[trigger] resolve(names, slots, names.len()).slots[i] == Slot::Done(
                expansion(names, slots, i, rank[i] + 1)->0,
            ),
{
    lemma_pending_count(slots, slots.len());
    lemma_resolve_settled(names, slots, rank, slots, names.len());
    let after = resolve(names, slots, names.len()).slots;
    assert forall|i: int| 0 <= i < slots.len() implies expansion(names, slots, i, rank[i] + 1)
        is Some && #[trigger] after[i] == Slot::Done(
        expansion(names, slots, i, rank[i] + 1)->0,
    ) by {
        assert(after[i] is Done);
    }
}

/// Whether the other table holds the entries of the table in another
/// order: `to` gives the place in the other table of each entry of the
/// table, `from` the place in the table of each entry of the other table,
/// and neither table holds a name twice.
pub open spec fn reordered(
    names: Seq<Seq<char>>,
    slots: Seq<Slot>,
    other_names: Seq<Seq<char>>,
    other_slots: Seq<Slot>,
    to: Seq<int>,
    from: Seq<int>,
) -> bool {
    &&& slots.len() == names.len()
    &&& other_names.len() == names.len()
    &&& other_slots.len() == names.len()
    &&& to.len() == names.len()
    &&& from.len() == names.len()
    &&& distinct(names)
    &&& distinct(other_names)
    &&& forall|i: int|
        0 <= i < names.len() ==> 0 <= #[trigger] to[i] < names.len() && other_names[to[i]]
            == names[i] && other_slots[to[i]] == slots[i]
    &&& forall|k: int|
        0 <= k < names.len() ==> 0 <= #[trigger] from[k] < names.len() && names[from[k]]
            == other_names[k]
}

/// The two ways between two orders of one table undo each other.
proof fn lemma_reordered_inverse(
    names: Seq<Seq<char>>,
    slots: Seq<Slot>,
    other_names: Seq<Seq<char>>,
    other_slots: Seq<Slot>,
    to: Seq<int>,
    from: Seq<int>,
)
    requires
        reordered(names, slots, other_names, other_slots, to, from),
    ensures
        forall|i: int| 0 <= i < names.len() ==> from[#[trigger] to[i]] == i,
        forall|k: int| 0 <= k < names.len() ==> to[#[trigger] from[k]] == k,
        forall|k: int| 0 <= k < names.len() ==> other_slots[k] == slots[#[trigger] from[k]],
{
    assert forall|i: int| 0 <= i < names.len() implies from[#[trigger] to[i]] == i by {
        let k = to[i];
        let back = from[k];
        assert(names[back] == other_names[k]);
        if back < i {
            assert(names[back] != names[i]);
        } else if i < back {
            assert(names[i] != names[back]);
        }
    }
    assert forall|k: int| 0 <= k < names.len() implies to[#[trigger] from[k]] == k by {
        let i = from[k];
        let there = to[i];
        assert(other_names[there] == names[i]);
        if there < k {
            assert(other_names[there] != other_names[k]);
        } else if k < there {
            assert(other_names[k] != other_names[there]);
        }
    }
    assert forall|k: int| 0 <= k < names.len() implies other_slots[k] == slots[#[trigger] from[k]] by {
        assert(to[from[k]] == k);
    }
}

/// A name is found in the other order where the entry it names went.
proof fn lemma_position_reordered(
    names: Seq<Seq<char>>,
    slots: Seq<Slot>,
    other_names: Seq<Seq<char>>,
    other_slots: Seq<Slot>,
    to: Seq<int>,
    from: Seq<int>,
    name: Seq<char>,
)
    requires
        reordered(names, slots, other_names, other_slots, to, from),
    ensures
        position(other_names, name) == match position(names, name) {
            Some(place) => Some(to[place]),
            None => None,
        },
{
    lemma_position(names, name);
    lemma_position(other_names, name);
    match position(names, name) {
        Some(place) => {
            assert(other_names[to[place]] == name);
            let there = position(other_names, name)->0;
            if there < to[place] {
                assert(other_names[there] != other_names[to[place]]);
            } else if to[place] < there {
                assert(other_names[to[place]] != other_names[there]);
            }
        },
        None => {
            match position(other_names, name) {
                Some(there) => {
                    assert(names[from[there]] == name);
                },
                None => {},
            }
        },
    }
}

/// The expansion of an entry is the same in every order of the table.
pub proof fn lemma_expansion_reordered(
    names: Seq<Seq<char>>,
    slots: Seq<Slot>,
    other_names: Seq<Seq<char>>,
    other_slots: Seq<Slot>,
    to: Seq<int>,
    from: Seq<int>,
    place: int,
    depth: nat,
)
    requires
        reordered(names, slots, other_names, other_slots, to, from),
        0 <= place < names.len(),
    ensures
        expansion(other_names, other_slots, to[place], depth) == expansion(
            names,
            slots,
            place,
            depth,
        ),
    decreases depth, 0nat,
{
    match slots[place] {
        Slot::Done(_) => {},
        Slot::Pending(source) => {
            if depth > 0 {
                match reference_lex(source) {
                    Ok(tokens) => {
                        lemma_expand_tokens_reordered(
                            names,
                            slots,
                            other_names,
                            other_slots,
                            to,
                            from,
                            tokens,
                            (depth - 1) as nat,
                        );
                    },
                    Err(_) => {},
                }
            }
        },
    }
}

/// The expansion of tokens is the same in every order of the table.
pub proof fn lemma_expand_tokens_reordered(
    names: Seq<Seq<char>>,
    slots: Seq<Slot>,
    other_names: Seq<Seq<char>>,
    other_slots: Seq<Slot>,
    to: Seq<int>,
    from: Seq<int>,
    tokens: Seq<ReferenceToken>,
    depth: nat,
)
    requires
        reordered(names, slots, other_names, other_slots, to, from),
    ensures
        expand_tokens(other_names, other_slots, tokens, depth) == expand_tokens(
            names,
            slots,
            tokens,
            depth,
        ),
    decreases depth, 1 + tokens.len(),
{
    if tokens.len() > 0 {
        lemma_expand_tokens_reordered(
            names,
            slots,
            other_names,
            other_slots,
            to,
            from,
            tokens.drop_last(),
            depth,
        );
        match tokens.last() {
            ReferenceToken::Raw(_) => {},
            ReferenceToken::Key(name) => {
                lemma_position_reordered(names, slots, other_names, other_slots, to, from, name);
                lemma_position(names, name);
                match position(names, name) {
                    Some(place) => {
                        lemma_expansion_reordered(
                            names,
                            slots,
                            other_names,
                            other_slots,
                            to,
                            from,
                            place,
                            depth,
                        );
                    },
                    None => {},
                }
            },
        }
    }
}

/// Resolution does not depend on the order of the entries.
///
/// Of a table whose references form no cycle, and of the same entries in
/// any other order, resolution succeeds, and it leaves every entry with
/// the same text in both.
pub proof fn lemma_resolution_reordered(
    names: Seq<Seq<char>>,
    slots: Seq<Slot>,
    rank: Seq<nat>,
    other_names: Seq<Seq<char>>,
    other_slots: Seq<Slot>,
    to: Seq<int>,
    from: Seq<int>,
)
    requires
        ranked(names, slots, rank),
        reordered(names, slots, other_names, other_slots, to, from),
    ensures
        resolve(names, slots, names.len()).failure is None,
        resolve(other_names, other_slots, other_names.len()).failure is None,
        forall|i: int|
            0 <= i < names.len() ==> resolve(
                other_names,
                other_slots,
                other_names.len(),
            ).slots[#[trigger] to[i]] == resolve(names, slots, names.len()).slots[i],
{
    let other_rank = Seq::new(names.len(), |k: int| rank[from[k]]);
    lemma_reordered_inverse(names, slots, other_names, other_slots, to, from);
    assert forall|k: int| 0 <= k < other_slots.len() implies ((#[trigger] other_slots[k]) matches Slot::Pending(
        source,
    ) ==> (reference_lex(source) matches Ok(tokens) && refers_below(
        tokens,
        other_names,
        other_slots,
        other_rank,
        other_rank[k],
    ))) by {
        match other_slots[k] {
            Slot::Pending(source) => {
                let place = from[k];
                assert(slots[place] == other_slots[k]);
                let tokens = reference_lex(source)->Ok_0;
                assert(refers_below(tokens, names, slots, rank, rank[place]));
                assert forall|t: int| 0 <= t < tokens.len() implies ((#[trigger] tokens[t]) matches ReferenceToken::Key(
                    name,
                ) ==> (position(other_names, name) matches Some(there) && (other_slots[there]
                    is Done || other_rank[there] < other_rank[k]))) by {
                    match tokens[t] {
                        ReferenceToken::Key(name) => {
                            lemma_position(names, name);
                            lemma_position_reordered(
                                names,
                                slots,
                                other_names,
                                other_slots,
                                to,
                                from,
                                name,
                            );
                            let target = position(names, name)->0;
                            assert(from[to[target]] == target);
                        },
                        ReferenceToken::Raw(_) => {},
                    }
                }
            },
            Slot::Done(_) => {},
        }
    }
    assert(ranked(other_names, other_slots, other_rank));
    lemma_convergence(names, slots, rank);
    lemma_convergence(other_names, other_slots, other_rank);
    assert forall|i: int| 0 <= i < names.len() implies resolve(
        other_names,
        other_slots,
        other_names.len(),
    ).slots[#[trigger] to[i]] == resolve(names, slots, names.len()).slots[i] by {
        assert(from[to[i]] == i);
        lemma_expansion_reordered(
            names,
            slots,
            other_names,
            other_slots,
            to,
            from,
            i,
            rank[i] + 1,
        );
    }
}

} // verus!
