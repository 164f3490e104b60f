//! The argument list of the outer macro: the names of the named
//! arguments, the size of a group, and the table that named references
//! are looked up in.

use vstd::prelude::*;

use crate::config::{Argument, Config, Core};
use crate::error::{Error, ErrorKind, Failure};
use crate::preprocessor::table::{position, AnyPreprocessable, KeyTable};
use crate::preprocessor::Preprocessable;
use crate::text::views;

verus! {

/// What the argument list declares.
pub struct Gathered {
    /// The names of the named arguments, in their order.
    pub names: Seq<Seq<char>>,
    /// The size of a group, if one is declared.
    pub group: Option<nat>,
}

/// One argument added to what has been gathered.  A named argument whose
/// name is not resolved is a failure that names its key.  With `strict`, a
/// second declaration of the group size is a failure.
pub open spec fn gather_step(
    before: Result<Gathered, Failure>,
    argument: Argument,
    strict: bool,
) -> Result<Gathered, Failure> {
    match before {
        Err(failure) => Err(failure),
        Ok(gathered) => match argument {
            Argument::Named(named) => match named.name.resolved() {
                None => Err(Failure::named(ErrorKind::NotPreprocessed, named.key@)),
                Some(name) => Ok(
                    Gathered { names: gathered.names.push(name), group: gathered.group },
                ),
            },
            Argument::Varadict { varadict } => if strict && gathered.group is Some {
                Err(Failure::plain(ErrorKind::DuplicateArgument))
            } else {
                Ok(Gathered { names: gathered.names, group: Some(varadict as nat) })
            },
        },
    }
}

/// What the argument list declares, read from left to right.
pub open spec fn gather(arguments: Seq<Argument>, strict: bool) -> Result<Gathered, Failure>
    decreases arguments.len(),
{
    if arguments.len() == 0 {
        Ok(Gathered { names: Seq::empty(), group: None })
    } else {
        gather_step(gather(arguments.drop_last(), strict), arguments.last(), strict)
    }
}

/// Gathering that has failed stays as it is however many arguments
/// follow.
pub proof fn lemma_gather_failure(arguments: Seq<Argument>, strict: bool, n: nat)
    requires
        n <= arguments.len(),
        gather(arguments.take(n as int), strict) is Err,
    ensures
        gather(arguments, strict) == gather(arguments.take(n as int), strict),
    decreases arguments.len(),
{
    if n == arguments.len() {
        assert(arguments.take(n as int) =~= arguments);
    } else {
        assert(arguments.drop_last().take(n as int) =~= arguments.take(n as int));
        lemma_gather_failure(arguments.drop_last(), strict, n);
    }
}

/// What the argument list declares.
#[derive(Debug, Clone, PartialEq, Eq)]
pub struct GatheredArguments {
    /// The names of the named arguments, in their order.
    pub names: Vec<String>,
    /// The size of a group, if one is declared.
    pub group_size: Option<usize>,
}

impl View for GatheredArguments {
    type V = Gathered;

    open spec fn view(&self) -> Gathered {
        Gathered {
            names: views(self.names@),
            group: match self.group_size {
                Some(size) => Some(size as nat),
                None => None,
            },
        }
    }
}

/// Reads the argument list of the outer macro.
///
/// Fails with `NotPreprocessed` at the first named argument whose name is
/// not resolved and, with `strict`, with `DuplicateArgument` at the second
/// declaration of the group size, whichever comes first.
pub fn gather_arguments(core: &Core, strict: bool) -> (result: Result<GatheredArguments, Error>)
    ensures
        match result {
            Ok(gathered) => gather(core.args@, strict) == Ok::<Gathered, Failure>(gathered@),
            Err(e) => gather(core.args@, strict) == Err::<Gathered, Failure>(e@),
        },
{
    let mut names: Vec<String> = Vec::new();
    let mut group_size: Option<usize> = None;
    let mut i: usize = 0;
    assert(core.args@.take(0) =~= Seq::<Argument>::empty());
    assert(views(names@) =~= Seq::<Seq<char>>::empty());
    while i < core.args.len()
        invariant
            0 <= i <= core.args@.len(),
            gather(core.args@.take(i as int), strict) == Ok::<Gathered, Failure>(
                (GatheredArguments { names, group_size })@,
            ),
        decreases core.args@.len() - i,
    {
        let ghost before = views(names@);
        proof {
            assert(core.args@.take(i + 1).drop_last() =~= core.args@.take(i as int));
            assert(core.args@.take(i + 1).last() == core.args@[i as int]);
            assert(gather(core.args@.take(i + 1), strict) == gather_step(
                gather(core.args@.take(i as int), strict),
                core.args@[i as int],
                strict,
            ));
        }
        match &core.args[i] {
            Argument::Named(named) => match &named.name {
                Preprocessable::NotPreprocessed(_) => {
                    proof {
                        lemma_gather_failure(core.args@, strict, (i + 1) as nat);
                    }
                    return Err(Error::named(ErrorKind::NotPreprocessed, named.key.as_str()));
                },
                Preprocessable::Preprocessed(name) => {
                    names.push(name.clone());
                    assert(views(names@) =~= before.push(name@));
                },
            },
            Argument::Varadict { varadict } => {
                if strict && group_size.is_some() {
                    proof {
                        lemma_gather_failure(core.args@, strict, (i + 1) as nat);
                    }
                    return Err(Error::new(ErrorKind::DuplicateArgument));
                }
                group_size = Some(*varadict);
            },
        }
        i = i + 1;
    }
    assert(core.args@.take(core.args@.len() as int) =~= core.args@);
    Ok(GatheredArguments { names, group_size })
}

/// The table that named references are looked up in.
pub struct NamedTable {
    /// The keys of the named arguments, in their order.
    pub names: Seq<Seq<char>>,
    /// Their names, where they are resolved.
    pub texts: Seq<Option<Seq<char>>>,
}

/// One argument entered into the table.  A named argument behind one
/// with the same key is a failure that names the key.
pub open spec fn named_table_step(
    before: Result<NamedTable, Failure>,
    argument: Argument,
) -> Result<NamedTable, Failure> {
    match before {
        Err(failure) => Err(failure),
        Ok(table) => match argument {
            Argument::Named(named) => if position(table.names, named.key@) is Some {
                Err(Failure::named(ErrorKind::DuplicateArgument, named.key@))
            } else {
                Ok(
                    NamedTable {
                        names: table.names.push(named.key@),
                        texts: table.texts.push(named.name.resolved()),
                    },
                )
            },
            Argument::Varadict { varadict } => Ok(table),
        },
    }
}

/// The table of the named arguments of an argument list.
pub open spec fn named_table(arguments: Seq<Argument>) -> Result<NamedTable, Failure>
    decreases arguments.len(),
{
    if arguments.len() == 0 {
        Ok(NamedTable { names: Seq::empty(), texts: Seq::empty() })
    } else {
        named_table_step(named_table(arguments.drop_last()), arguments.last())
    }
}

/// A table that has failed stays as it is however many arguments follow.
pub proof fn lemma_named_table_failure(arguments: Seq<Argument>, n: nat)
    requires
        n <= arguments.len(),
        named_table(arguments.take(n as int)) is Err,
    ensures
        named_table(arguments) == named_table(arguments.take(n as int)),
    decreases arguments.len(),
{
    if n == arguments.len() {
        assert(arguments.take(n as int) =~= arguments);
    } else {
        assert(arguments.drop_last().take(n as int) =~= arguments.take(n as int));
        lemma_named_table_failure(arguments.drop_last(), n);
    }
}

impl Config {
    /// Builds the table that named references are looked up in.
    ///
    /// Fails with `DuplicateArgument` where two named arguments share a
    /// key.
    pub fn load_named_arguments(&self) -> (result: Result<KeyTable, Error>)
        ensures
            match result {
                Ok(table) => table.wf() && named_table(self.core.args@) == Ok::<
                    NamedTable,
                    Failure,
                >(NamedTable { names: table.names(), texts: table.texts() }),
                Err(e) => named_table(self.core.args@) == Err::<NamedTable, Failure>(e@),
            },
    {
        let mut table = KeyTable::new();
        let mut i: usize = 0;
        assert(self.core.args@.take(0) =~= Seq::<Argument>::empty());
        assert(table.names() =~= Seq::<Seq<char>>::empty());
        assert(table.texts() =~= Seq::<Option<Seq<char>>>::empty());
        while i < self.core.args.len()
            invariant
                0 <= i <= self.core.args@.len(),
                table.wf(),
                named_table(self.core.args@.take(i as int)) == Ok::<NamedTable, Failure>(
                    NamedTable { names: table.names(), texts: table.texts() },
                ),
            decreases self.core.args@.len() - i,
        {
            let ghost arguments = self.core.args@;
            let ghost names = table.names();
            let ghost texts = table.texts();
            proof {
                assert(arguments.take(i + 1).drop_last() =~= arguments.take(i as int));
                assert(arguments.take(i + 1).last() == arguments[i as int]);
                assert(named_table(arguments.take(i + 1)) == named_table_step(
                    named_table(arguments.take(i as int)),
                    arguments[i as int],
                ));
            }
            match &self.core.args[i] {
                Argument::Named(named) => {
                    let value = AnyPreprocessable::String(named.name.duplicate());
                    match table.insert(named.key.clone(), value) {
                        Err(_) => {
                            proof {
                                lemma_named_table_failure(arguments, (i + 1) as nat);
                            }
                            return Err(
                                Error::named(ErrorKind::DuplicateArgument, named.key.as_str()),
                            );
                        },
                        Ok(()) => {
                            assert(table.names() =~= names.push(named.key@));
                            assert(table.texts() =~= texts.push(named.name.resolved()));
                        },
                    }
                },
                Argument::Varadict { varadict: _ } => {},
            }
            i = i + 1;
        }
        assert(self.core.args@.take(self.core.args@.len() as int) =~= self.core.args@);
        Ok(table)
    }
}

} // verus!
