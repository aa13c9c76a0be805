use vstd::prelude::*;

use crate::relocation::{Relocation, ResolvingRelocation};
use crate::section::{LoadableSectionTable, SectionIndex};
use crate::symbol::{
    lemma_name_index, lemma_name_index_push, lemma_name_index_update, lemma_names_unique_steps,
    name_index, names_unique, ResolvingSymbolTable, Symbol, SymbolDefinition, SymbolIndex,
    SymbolTable, SymbolValue,
};

verus! {

#[derive(Debug, Clone, PartialEq, Eq)]
pub enum ResolveError<S> where S: SectionIndex {
    /// Two objects define a symbol of this name.
    ConflictSymbols { symbol: String },
    /// The relocation names a symbol that its object's symbol table does not hold.
    InvalidRelocation { relocation: Relocation<S> },
}

/// The slot lengths of `table`, as a function of the slot index.
pub open spec fn slot_lens<S: SectionIndex, ST: LoadableSectionTable<S>>(table: &ST) -> spec_fn(
    S,
) -> nat {
    |index: S| table.slot_len(index)
}

/// Whether moving `symbol`'s definition past the `lens` bytes that its slot holds keeps
/// the offset in a `usize`.
pub open spec fn shift_fits<'name, S: SectionIndex>(
    lens: spec_fn(S) -> nat,
    symbol: Symbol<'name, S>,
) -> bool {
    match symbol.value {
        SymbolValue::Undefined => true,
        SymbolValue::Defined(d) => lens(d.section) + d.offset <= usize::MAX,
    }
}

/// `symbol` as it enters the resolving table: a definition's offset moves past the bytes
/// that its slot holds (`lens`) before this object's bytes are appended.
pub open spec fn shift_symbol<'name, S: SectionIndex>(
    lens: spec_fn(S) -> nat,
    symbol: Symbol<'name, S>,
) -> Symbol<'name, S> {
    match symbol.value {
        SymbolValue::Undefined => symbol,
        SymbolValue::Defined(d) => Symbol {
            name: symbol.name,
            value: SymbolValue::Defined(
                SymbolDefinition {
                    section: d.section,
                    offset: (lens(d.section) + d.offset) as usize,
                    size: d.size,
                },
            ),
        },
    }
}

/// Entering `symbol` into the resolving symbols `symbols`: the symbols after it and the
/// position that `symbol` resolves to, or the name of a symbol defined twice.
pub open spec fn resolve_symbol_step<'name, S: SectionIndex>(
    lens: spec_fn(S) -> nat,
    symbols: Seq<Symbol<'name, S>>,
    symbol: Symbol<'name, S>,
) -> Result<(Seq<Symbol<'name, S>>, SymbolIndex), Seq<char>> {
    match name_index(symbols, symbol.name@) {
        None => Ok((symbols.push(shift_symbol(lens, symbol)), SymbolIndex::at(symbols.len()))),
        Some(e) => match (symbols[e as int].value, symbol.value) {
            (SymbolValue::Defined(_), SymbolValue::Defined(_)) => Err(symbol.name@),
            (SymbolValue::Undefined, SymbolValue::Defined(_)) => Ok(
                (symbols.update(e as int, shift_symbol(lens, symbol)), SymbolIndex::at(e)),
            ),
            _ => Ok((symbols, SymbolIndex::at(e))),
        },
    }
}

/// Entering `incoming` in order into `symbols`: the resulting symbols and, for each
/// incoming symbol, the position it resolves to; or the name of the first symbol defined
/// twice.
pub open spec fn resolve_symbols<'name, S: SectionIndex>(
    lens: spec_fn(S) -> nat,
    symbols: Seq<Symbol<'name, S>>,
    incoming: Seq<Symbol<'name, S>>,
) -> Result<(Seq<Symbol<'name, S>>, Seq<SymbolIndex>), Seq<char>>
    decreases incoming.len(),
{
    if incoming.len() == 0 {
        Ok((symbols, Seq::empty()))
    } else {
        match resolve_symbols(lens, symbols, incoming.drop_last()) {
            Err(name) => Err(name),
            Ok((before, map)) => match resolve_symbol_step(lens, before, incoming.last()) {
                Err(name) => Err(name),
                Ok((after, index)) => Ok((after, map.push(index))),
            },
        }
    }
}

/// The position of the first relocation whose symbol index is `n` or more.
pub open spec fn first_stray<S: SectionIndex>(relocations: Seq<Relocation<S>>, n: nat) -> Option<
    nat,
>
    decreases relocations.len(),
{
    if relocations.len() == 0 {
        None
    } else {
        match first_stray(relocations.drop_last(), n) {
            Some(i) => Some(i),
            None => if relocations.last().symbol@ >= n {
                Some((relocations.len() - 1) as nat)
            } else {
                None
            },
        }
    }
}

/// What [`first_stray`] finds: the first relocation whose symbol index is `n` or more.
pub proof fn lemma_first_stray<S: SectionIndex>(relocations: Seq<Relocation<S>>, n: nat)
    ensures
        match first_stray(relocations, n) {
            Some(i) => i < relocations.len() && relocations[i as int].symbol@ >= n && forall|j: int|
                0 <= j < i ==> #[trigger] relocations[j].symbol@ < n,
            None => forall|j: int| 0 <= j < relocations.len() ==> #[trigger] relocations[j].symbol@ < n,
        },
    decreases relocations.len(),
{
    if relocations.len() > 0 {
        let prefix = relocations.drop_last();
        lemma_first_stray(prefix, n);
        match first_stray(prefix, n) {
            Some(i) => {
                assert forall|j: int| 0 <= j < i implies #[trigger] relocations[j].symbol@ < n by {
                    assert(prefix[j] == relocations[j]);
                }
            },
            None => {
                assert forall|j: int| 0 <= j < prefix.len() implies #[trigger] relocations[j].symbol@
                    < n by {
                    assert(prefix[j] == relocations[j]);
                }
            },
        }
    }
}

/// `r` with its offset moved past the `lens` bytes that its slot holds, and its symbol
/// index carried through `map` into the resolving table.
pub open spec fn resolve_relocation<S: SectionIndex>(
    lens: spec_fn(S) -> nat,
    map: Seq<SymbolIndex>,
    r: Relocation<S>,
) -> ResolvingRelocation<S> {
    ResolvingRelocation(
        Relocation {
            offset: (lens(r.section) + r.offset) as usize,
            section: r.section,
            typ: r.typ,
            symbol: map[r.symbol@ as int],
            addend: r.addend,
        },
    )
}

/// Each of `relocations`, resolved as [`resolve_relocation`] says.
pub open spec fn resolve_relocations<S: SectionIndex>(
    lens: spec_fn(S) -> nat,
    map: Seq<SymbolIndex>,
    relocations: Seq<Relocation<S>>,
) -> Seq<ResolvingRelocation<S>> {
    relocations.map_values(|r: Relocation<S>| resolve_relocation(lens, map, r))
}

/// Resolving one object against the resolving symbols `symbols` and the slot lengths
/// `lens`: the symbols after it and its relocations, resolved; or the error that stops it.
pub open spec fn resolve_object<'name, S: SectionIndex>(
    lens: spec_fn(S) -> nat,
    symbols: Seq<Symbol<'name, S>>,
    incoming: Seq<Symbol<'name, S>>,
    relocations: Seq<Relocation<S>>,
) -> Result<(Seq<Symbol<'name, S>>, Seq<ResolvingRelocation<S>>), ResolveFailure<S>> {
    match resolve_symbols(lens, symbols, incoming) {
        Err(name) => Err(ResolveFailure::Conflict(name)),
        Ok((after, map)) => match first_stray(relocations, map.len()) {
            Some(k) => Err(ResolveFailure::Stray(relocations[k as int])),
            None => Ok((after, resolve_relocations(lens, map, relocations))),
        },
    }
}

/// Why resolving an object stops: the name of a symbol defined twice, or a relocation
/// whose symbol its object does not hold.
pub enum ResolveFailure<S> where S: SectionIndex {
    Conflict(Seq<char>),
    Stray(Relocation<S>),
}

/// Whether `e` is the error that reports `failure`.
pub open spec fn reports<S: SectionIndex>(e: ResolveError<S>, failure: ResolveFailure<S>) -> bool {
    match failure {
        ResolveFailure::Conflict(name) => e matches ResolveError::ConflictSymbols { symbol } && symbol@
            == name,
        ResolveFailure::Stray(relocation) => e == ResolveError::InvalidRelocation { relocation },
    }
}

/// Whether every shift that resolving this object makes keeps its offset in a `usize`.
pub open spec fn object_fits<'name, S: SectionIndex>(
    lens: spec_fn(S) -> nat,
    symbols: Seq<Symbol<'name, S>>,
    relocations: Seq<Relocation<S>>,
) -> bool {
    &&& forall|i: int| 0 <= i < symbols.len() ==> shift_fits(lens, #[trigger] symbols[i])
    &&& forall|i: int|
        0 <= i < relocations.len() ==> lens((#[trigger] relocations[i]).section)
            + relocations[i].offset <= usize::MAX
}

/// `symbol` with its definition's offset moved past the bytes that `section_table` holds
/// in the definition's slot.
fn update_offset<'name, S, ST>(section_table: &ST, symbol: &Symbol<'name, S>) -> (r: Symbol<
    'name,
    S,
>) where S: SectionIndex, ST: LoadableSectionTable<S>
    requires
        shift_fits(slot_lens(section_table), *symbol),
    ensures
        r == shift_symbol(slot_lens(section_table), *symbol),
{
    match symbol.value {
        SymbolValue::Undefined => *symbol,
        SymbolValue::Defined(definition) => {
            let new_offset = section_table.len(definition.section) + definition.offset;
            Symbol {
                name: symbol.name,
                value: SymbolValue::Defined(
                    SymbolDefinition {
                        section: definition.section,
                        offset: new_offset,
                        size: definition.size,
                    },
                ),
            }
        },
    }
}

/// Enters `symbol` into `symbol_table` and returns the index it resolves to.
fn resolve_symbol<'name, S, ST>(
    section_table: &ST,
    symbol_table: &mut ResolvingSymbolTable<'name, S>,
    symbol: &Symbol<'name, S>,
) -> (r: Result<SymbolIndex, ResolveError<S>>) where S: SectionIndex, ST: LoadableSectionTable<S>
    requires
        old(symbol_table).wf(),
        shift_fits(slot_lens(section_table), *symbol),
    ensures
        final(symbol_table).wf(),
        match resolve_symbol_step(slot_lens(section_table), old(symbol_table)@, *symbol) {
            Err(name) => r matches Err(ResolveError::ConflictSymbols { symbol }) && symbol@ == name,
            Ok((symbols, index)) => r == Ok::<SymbolIndex, ResolveError<S>>(index)
                && final(symbol_table)@ == symbols,
        },
{
    proof {
        lemma_name_index(symbol_table@, symbol.name@);
    }
    match symbol_table.get_index_by_name(symbol.name) {
        Some(existing_symbol_index) => {
            proof {
                SymbolIndex::lemma_at_view(existing_symbol_index);
            }
            let existing_symbol = symbol_table.get(existing_symbol_index);
            match (existing_symbol.value, symbol.value) {
                (SymbolValue::Defined(_), SymbolValue::Defined(_)) => {
                    return Err(ResolveError::ConflictSymbols { symbol: symbol.name.to_owned() });
                },
                (SymbolValue::Undefined, SymbolValue::Defined(_)) => {
                    let new_symbol = update_offset(section_table, symbol);
                    symbol_table.replace(existing_symbol_index, new_symbol);
                    Ok(existing_symbol_index)
                },
                _ => Ok(existing_symbol_index),
            }
        },
        None => {
            let new_symbol = update_offset(section_table, symbol);
            let index = symbol_table.add(new_symbol);
            proof {
                SymbolIndex::lemma_at_view(index);
            }
            Ok(index)
        },
    }
}

/// Merges one object's symbols into `symbol_table` and appends its relocations, rewritten
/// against `symbol_table` and the slot lengths of `section_table`, to `relocation_table`.
///
/// `section_table` is the running table before this object's sections are merged into it.
pub fn resolve_unloadable_sections<'name, S, ST>(
    section_table: &ST,
    symbol_table: &mut ResolvingSymbolTable<'name, S>,
    other_symbol_table: SymbolTable<'name, S>,
    relocation_table: &mut Vec<ResolvingRelocation<S>>,
    other_relocation_table: Vec<Relocation<S>>,
) -> (r: Result<(), ResolveError<S>>) where S: SectionIndex, ST: LoadableSectionTable<S>
    requires
        old(symbol_table).wf(),
        object_fits(slot_lens(section_table), other_symbol_table@, other_relocation_table@),
    ensures
        final(symbol_table).wf(),
        match resolve_object(
            slot_lens(section_table),
            old(symbol_table)@,
            other_symbol_table@,
            other_relocation_table@,
        ) {
            Err(failure) => r matches Err(e) && reports(e, failure),
            Ok((symbols, resolved)) => {
                &&& r is Ok
                &&& final(symbol_table)@ == symbols
                &&& final(relocation_table)@ == old(relocation_table)@ + resolved
            },
        },
{
    let ghost lens = slot_lens(section_table);
    let ghost initial = symbol_table@;
    let ghost incoming = other_symbol_table@;
    let entries = other_symbol_table.into_iter();
    let mut resolved_symbols: Vec<SymbolIndex> = Vec::new();

    // Resolve symbols
    let n = entries.len();
    assert(incoming.take(0) =~= Seq::<Symbol<'name, S>>::empty());
    for i in 0..n
        invariant
            n == incoming.len(),
            initial == old(symbol_table)@,
            incoming == other_symbol_table@,
            lens == slot_lens(section_table),
            entries@.len() == n,
            forall|j: int| 0 <= j < n ==> (#[trigger] entries@[j]).1 == incoming[j],
            object_fits(lens, incoming, other_relocation_table@),
            symbol_table.wf(),
            resolved_symbols@.len() == i,
            resolve_symbols(lens, initial, incoming.take(i as int)) == Ok::<
                (Seq<Symbol<'name, S>>, Seq<SymbolIndex>),
                Seq<char>,
            >((symbol_table@, resolved_symbols@)),
    {
        let (_index, symbol) = entries[i];
        assert(incoming.take(i + 1).drop_last() =~= incoming.take(i as int));
        assert(incoming.take(i + 1).last() == symbol);
        match resolve_symbol(section_table, symbol_table, &symbol) {
            Ok(new_index) => {
                resolved_symbols.push(new_index);
            },
            Err(e) => {
                proof {
                    lemma_resolve_symbols_error_persists(lens, initial, incoming, (i + 1) as nat);
                }
                return Err(e);
            },
        }
    }
    assert(incoming.take(n as int) =~= incoming);
    let ghost symbols = symbol_table@;

    // Resolve relocations
    let ghost start = relocation_table@;
    let ghost relocations = other_relocation_table@;
    let m = other_relocation_table.len();
    for i in 0..m
        invariant
            m == relocations.len(),
            relocations == other_relocation_table@,
            n == resolved_symbols@.len(),
            initial == old(symbol_table)@,
            incoming == other_symbol_table@,
            start == old(relocation_table)@,
            lens == slot_lens(section_table),
            object_fits(lens, incoming, relocations),
            symbol_table.wf(),
            symbol_table@ == symbols,
            resolve_symbols(lens, initial, incoming) == Ok::<
                (Seq<Symbol<'name, S>>, Seq<SymbolIndex>),
                Seq<char>,
            >((symbols, resolved_symbols@)),
            forall|j: int| 0 <= j < i ==> #[trigger] relocations[j].symbol@ < n,
            relocation_table@ =~= start + resolve_relocations(
                lens,
                resolved_symbols@,
                relocations.take(i as int),
            ),
    {
        let reference = other_relocation_table[i];
        let position = reference.symbol.position();
        if position >= resolved_symbols.len() {
            proof {
                lemma_first_stray(relocations, n as nat);
            }
            return Err(ResolveError::InvalidRelocation { relocation: reference });
        }
        let new_reference = ResolvingRelocation(
            Relocation {
                offset: section_table.len(reference.section) + reference.offset,
                section: reference.section,
                typ: reference.typ,
                symbol: resolved_symbols[position],
                addend: reference.addend,
            },
        );
        relocation_table.push(new_reference);
        assert(relocations.take(i + 1) =~= relocations.take(i as int).push(reference));
    }
    proof {
        lemma_first_stray(relocations, n as nat);
    }
    assert(relocations.take(m as int) =~= relocations);
    Ok(())
}

/// Every defined symbol of `symbols` lies in a section that satisfies `ok`.
pub open spec fn sections_satisfy<'name, S: SectionIndex>(
    symbols: Seq<Symbol<'name, S>>,
    ok: spec_fn(S) -> bool,
) -> bool {
    forall|k: int|
        0 <= k < symbols.len() ==> match (#[trigger] symbols[k]).value {
            SymbolValue::Defined(d) => ok(d.section),
            SymbolValue::Undefined => true,
        }
}

/// Resolving symbols only adds to the table, maps each incoming symbol to a position in
/// it, and keeps definitions in the sections they came from.
pub proof fn lemma_resolve_symbols_shape<'name, S: SectionIndex>(
    lens: spec_fn(S) -> nat,
    symbols: Seq<Symbol<'name, S>>,
    incoming: Seq<Symbol<'name, S>>,
    ok: spec_fn(S) -> bool,
)
    requires
        resolve_symbols(lens, symbols, incoming) is Ok,
    ensures
        ({
            let (after, map) = resolve_symbols(lens, symbols, incoming)->Ok_0;
            &&& map.len() == incoming.len()
            &&& after.len() >= symbols.len()
            &&& forall|j: int| 0 <= j < map.len() ==> (#[trigger] map[j])@ < after.len()
            &&& sections_satisfy(symbols, ok) && sections_satisfy(incoming, ok) ==> sections_satisfy(
                after,
                ok,
            )
        }),
    decreases incoming.len(),
{
    if incoming.len() > 0 {
        let prefix = incoming.drop_last();
        lemma_resolve_symbols_shape(lens, symbols, prefix, ok);
        let (before, earlier_map) = resolve_symbols(lens, symbols, prefix)->Ok_0;
        let (after, map) = resolve_symbols(lens, symbols, incoming)->Ok_0;
        let symbol = incoming.last();
        lemma_name_index(before, symbol.name@);
        match name_index(before, symbol.name@) {
            None => {
                SymbolIndex::lemma_at(before.len());
            },
            Some(e) => {
                SymbolIndex::lemma_at(e);
            },
        }
        assert forall|j: int| 0 <= j < map.len() implies (#[trigger] map[j])@ < after.len() by {
            if j < earlier_map.len() {
                assert(map[j] == earlier_map[j]);
            }
        }
        if sections_satisfy(symbols, ok) && sections_satisfy(incoming, ok) {
            assert forall|k: int| 0 <= k < prefix.len() implies match (#[trigger] prefix[k]).value {
                SymbolValue::Defined(d) => ok(d.section),
                SymbolValue::Undefined => true,
            } by {
                assert(prefix[k] == incoming[k]);
            }
            assert(match incoming[incoming.len() - 1].value {
                SymbolValue::Defined(d) => ok(d.section),
                SymbolValue::Undefined => true,
            });
        }
    }
}

/// Once entering a prefix of `incoming` fails, entering all of it fails with the same name.
proof fn lemma_resolve_symbols_error_persists<'name, S: SectionIndex>(
    lens: spec_fn(S) -> nat,
    symbols: Seq<Symbol<'name, S>>,
    incoming: Seq<Symbol<'name, S>>,
    k: nat,
)
    requires
        k <= incoming.len(),
        resolve_symbols(lens, symbols, incoming.take(k as int)) is Err,
    ensures
        resolve_symbols(lens, symbols, incoming) == resolve_symbols(
            lens,
            symbols,
            incoming.take(k as int),
        ),
    decreases incoming.len() - k,
{
    if k < incoming.len() {
        assert(incoming.take(k + 1 as int).drop_last() =~= incoming.take(k as int));
        lemma_resolve_symbols_error_persists(lens, symbols, incoming, k + 1);
    } else {
        assert(incoming.take(k as int) =~= incoming);
    }
}

/// Whether `symbols` holds a definition of `name`.
pub open spec fn defines<'name, S: SectionIndex>(symbols: Seq<Symbol<'name, S>>, name: Seq<char>) -> bool {
    match name_index(symbols, name) {
        Some(e) => symbols[e as int].value is Defined,
        None => false,
    }
}

/// Resolving symbols into a table whose names are unique leaves them unique.
pub proof fn lemma_resolve_symbols_keeps_names_unique<'name, S: SectionIndex>(
    lens: spec_fn(S) -> nat,
    symbols: Seq<Symbol<'name, S>>,
    incoming: Seq<Symbol<'name, S>>,
)
    requires
        names_unique(symbols),
        resolve_symbols(lens, symbols, incoming) is Ok,
    ensures
        names_unique(resolve_symbols(lens, symbols, incoming)->Ok_0.0),
    decreases incoming.len(),
{
    if incoming.len() > 0 {
        let prefix = incoming.drop_last();
        lemma_resolve_symbols_keeps_names_unique(lens, symbols, prefix);
        let before = resolve_symbols(lens, symbols, prefix)->Ok_0.0;
        let symbol = incoming.last();
        let shifted = shift_symbol(lens, symbol);
        match name_index(before, symbol.name@) {
            Some(e) => {
                lemma_name_index(before, symbol.name@);
                lemma_names_unique_steps(before, e as int, shifted);
            },
            None => {
                lemma_names_unique_steps(before, 0, shifted);
            },
        }
    }
}

/// Entering one symbol into a table that defines `name` leaves `name` defined.
proof fn lemma_step_keeps_definition<'name, S: SectionIndex>(
    lens: spec_fn(S) -> nat,
    before: Seq<Symbol<'name, S>>,
    symbol: Symbol<'name, S>,
    name: Seq<char>,
)
    requires
        defines(before, name),
        resolve_symbol_step(lens, before, symbol) is Ok,
    ensures
        defines(resolve_symbol_step(lens, before, symbol)->Ok_0.0, name),
{
    let shifted = shift_symbol(lens, symbol);
    let x = name_index(before, name)->Some_0;
    lemma_name_index(before, name);
    match name_index(before, symbol.name@) {
        None => {
            lemma_name_index_push(before, shifted, name);
        },
        Some(e) => {
            lemma_name_index(before, symbol.name@);
            lemma_name_index_update(before, e as int, shifted, name);
            if e != x {
                assert(before.update(e as int, shifted)[x as int] == before[x as int]);
            }
        },
    }
}

/// Resolving symbols into a table that defines `name` leaves `name` defined.
pub proof fn lemma_resolve_symbols_keeps_definition<'name, S: SectionIndex>(
    lens: spec_fn(S) -> nat,
    symbols: Seq<Symbol<'name, S>>,
    incoming: Seq<Symbol<'name, S>>,
    name: Seq<char>,
)
    requires
        defines(symbols, name),
        resolve_symbols(lens, symbols, incoming) is Ok,
    ensures
        defines(resolve_symbols(lens, symbols, incoming)->Ok_0.0, name),
    decreases incoming.len(),
{
    if incoming.len() > 0 {
        let prefix = incoming.drop_last();
        lemma_resolve_symbols_keeps_definition(lens, symbols, prefix, name);
        let before = resolve_symbols(lens, symbols, prefix)->Ok_0.0;
        lemma_step_keeps_definition(lens, before, incoming.last(), name);
    }
}

/// Resolving symbols of which one defines `incoming[j]`'s name leaves that name defined.
pub proof fn lemma_resolve_symbols_gains_definition<'name, S: SectionIndex>(
    lens: spec_fn(S) -> nat,
    symbols: Seq<Symbol<'name, S>>,
    incoming: Seq<Symbol<'name, S>>,
    j: int,
)
    requires
        0 <= j < incoming.len(),
        incoming[j].value is Defined,
        resolve_symbols(lens, symbols, incoming) is Ok,
    ensures
        defines(resolve_symbols(lens, symbols, incoming)->Ok_0.0, incoming[j].name@),
    decreases incoming.len(),
{
    let prefix = incoming.drop_last();
    let name = incoming[j].name@;
    let before = resolve_symbols(lens, symbols, prefix)->Ok_0.0;
    if j < incoming.len() - 1 {
        assert(prefix[j] == incoming[j]);
        lemma_resolve_symbols_gains_definition(lens, symbols, prefix, j);
        lemma_step_keeps_definition(lens, before, incoming.last(), name);
    } else {
        let shifted = shift_symbol(lens, incoming[j]);
        lemma_name_index(before, name);
        match name_index(before, name) {
            None => {
                lemma_name_index_push(before, shifted, name);
            },
            Some(e) => {
                lemma_name_index_update(before, e as int, shifted, name);
            },
        }
    }
}

/// Where the first `k` of `incoming` cannot be entered, neither can all of them.
proof fn lemma_resolve_symbols_prefix_ok<'name, S: SectionIndex>(
    lens: spec_fn(S) -> nat,
    symbols: Seq<Symbol<'name, S>>,
    incoming: Seq<Symbol<'name, S>>,
    k: nat,
)
    requires
        k <= incoming.len(),
        resolve_symbols(lens, symbols, incoming) is Ok,
    ensures
        resolve_symbols(lens, symbols, incoming.take(k as int)) is Ok,
{
    if resolve_symbols(lens, symbols, incoming.take(k as int)) is Err {
        lemma_resolve_symbols_error_persists(lens, symbols, incoming, k);
    }
}

/// Entering a definition of a name that the table already defines fails.
pub proof fn lemma_resolve_symbols_conflict<'name, S: SectionIndex>(
    lens: spec_fn(S) -> nat,
    symbols: Seq<Symbol<'name, S>>,
    incoming: Seq<Symbol<'name, S>>,
    j: int,
)
    requires
        0 <= j < incoming.len(),
        incoming[j].value is Defined,
        defines(symbols, incoming[j].name@),
    ensures
        resolve_symbols(lens, symbols, incoming) is Err,
{
    if resolve_symbols(lens, symbols, incoming) is Ok {
        let name = incoming[j].name@;
        lemma_resolve_symbols_prefix_ok(lens, symbols, incoming, j as nat);
        lemma_resolve_symbols_keeps_definition(lens, symbols, incoming.take(j), name);
        let before = resolve_symbols(lens, symbols, incoming.take(j))->Ok_0.0;
        assert(incoming.take(j + 1).drop_last() =~= incoming.take(j));
        assert(resolve_symbols(lens, symbols, incoming.take(j + 1)) is Err);
        lemma_resolve_symbols_error_persists(lens, symbols, incoming, (j + 1) as nat);
    }
}

/// Entering symbols of distinct names into an empty table appends each in turn.
proof fn lemma_resolve_fresh_symbols<'name, S: SectionIndex>(
    lens: spec_fn(S) -> nat,
    incoming: Seq<Symbol<'name, S>>,
    k: nat,
)
    requires
        names_unique(incoming),
        k <= incoming.len(),
    ensures
        resolve_symbols(lens, Seq::empty(), incoming.take(k as int)) is Ok,
        ({
            let (after, map) = resolve_symbols(lens, Seq::empty(), incoming.take(k as int))->Ok_0;
            &&& after.len() == k
            &&& map.len() == k
            &&& forall|i: int| 0 <= i < k ==> (#[trigger] after[i]).name@ == incoming[i].name@
        }),
    decreases k,
{
    if k > 0 {
        let j = (k - 1) as nat;
        lemma_resolve_fresh_symbols(lens, incoming, j);
        assert(incoming.take(k as int).drop_last() =~= incoming.take(j as int));
        let (before, map) = resolve_symbols(lens, Seq::empty(), incoming.take(j as int))->Ok_0;
        let symbol = incoming[j as int];
        lemma_name_index(before, symbol.name@);
        assert(name_index(before, symbol.name@) is None) by {
            if name_index(before, symbol.name@) is Some {
                let e = name_index(before, symbol.name@)->Some_0 as int;
                assert(incoming[e].name@ == incoming[j as int].name@);
            }
        }
    }
}

/// An object whose symbols have distinct names and whose relocations name only its own
/// symbols always resolves into an empty table.
pub proof fn lemma_single_object_resolves<'name, S: SectionIndex>(
    lens: spec_fn(S) -> nat,
    incoming: Seq<Symbol<'name, S>>,
    relocations: Seq<Relocation<S>>,
)
    requires
        names_unique(incoming),
        forall|i: int| 0 <= i < relocations.len() ==> (#[trigger] relocations[i]).symbol@ < incoming.len(),
    ensures
        resolve_object(lens, Seq::empty(), incoming, relocations) is Ok,
{
    lemma_resolve_fresh_symbols(lens, incoming, incoming.len());
    assert(incoming.take(incoming.len() as int) =~= incoming);
    lemma_first_stray(relocations, incoming.len());
}

/// The value of the symbol named `name` in `symbols`, if there is one.
pub open spec fn name_value<'name, S: SectionIndex>(
    symbols: Seq<Symbol<'name, S>>,
    name: Seq<char>,
) -> Option<SymbolValue<S>> {
    match name_index(symbols, name) {
        Some(e) => Some(symbols[e as int].value),
        None => None,
    }
}

/// The value a name holds after a symbol `entering` of that name meets `current`: a
/// definition wins over a reference, and a missing name takes the entering value.
pub open spec fn met_value<S: SectionIndex>(
    current: Option<SymbolValue<S>>,
    entering: SymbolValue<S>,
) -> SymbolValue<S> {
    match current {
        Some(SymbolValue::Defined(d)) => SymbolValue::Defined(d),
        _ => entering,
    }
}

/// Entering a symbol leaves the value of every other name.
proof fn lemma_step_other_name<'name, S: SectionIndex>(
    lens: spec_fn(S) -> nat,
    before: Seq<Symbol<'name, S>>,
    symbol: Symbol<'name, S>,
    name: Seq<char>,
)
    requires
        symbol.name@ != name,
        resolve_symbol_step(lens, before, symbol) is Ok,
    ensures
        name_value(resolve_symbol_step(lens, before, symbol)->Ok_0.0, name) == name_value(
            before,
            name,
        ),
{
    let shifted = shift_symbol(lens, symbol);
    lemma_name_index(before, name);
    match name_index(before, symbol.name@) {
        None => {
            lemma_name_index_push(before, shifted, name);
        },
        Some(e) => {
            lemma_name_index(before, symbol.name@);
            lemma_name_index_update(before, e as int, shifted, name);
        },
    }
}

/// Entering a symbol of name `name` sets its value as [`met_value`] says.
proof fn lemma_step_same_name<'name, S: SectionIndex>(
    lens: spec_fn(S) -> nat,
    before: Seq<Symbol<'name, S>>,
    symbol: Symbol<'name, S>,
)
    requires
        resolve_symbol_step(lens, before, symbol) is Ok,
    ensures
        name_value(resolve_symbol_step(lens, before, symbol)->Ok_0.0, symbol.name@) == Some(
            met_value(name_value(before, symbol.name@), shift_symbol(lens, symbol).value),
        ),
{
    let shifted = shift_symbol(lens, symbol);
    let name = symbol.name@;
    lemma_name_index(before, name);
    match name_index(before, name) {
        None => {
            lemma_name_index_push(before, shifted, name);
        },
        Some(e) => {
            lemma_name_index_update(before, e as int, shifted, name);
        },
    }
}

/// Resolving symbols none of which is named `name` leaves the value of `name`.
proof fn lemma_resolve_symbols_other_name<'name, S: SectionIndex>(
    lens: spec_fn(S) -> nat,
    symbols: Seq<Symbol<'name, S>>,
    incoming: Seq<Symbol<'name, S>>,
    name: Seq<char>,
)
    requires
        forall|i: int| 0 <= i < incoming.len() ==> (#[trigger] incoming[i]).name@ != name,
        resolve_symbols(lens, symbols, incoming) is Ok,
    ensures
        name_value(resolve_symbols(lens, symbols, incoming)->Ok_0.0, name) == name_value(
            symbols,
            name,
        ),
    decreases incoming.len(),
{
    if incoming.len() > 0 {
        let prefix = incoming.drop_last();
        assert forall|i: int| 0 <= i < prefix.len() implies (#[trigger] prefix[i]).name@ != name by {
            assert(prefix[i] == incoming[i]);
        }
        lemma_resolve_symbols_other_name(lens, symbols, prefix, name);
        let before = resolve_symbols(lens, symbols, prefix)->Ok_0.0;
        lemma_step_other_name(lens, before, incoming.last(), name);
    }
}

/// Resolving symbols of distinct names, of which `incoming[j]` carries `name`, sets the
/// value of that name as [`met_value`] says.
pub proof fn lemma_resolve_symbols_name_value<'name, S: SectionIndex>(
    lens: spec_fn(S) -> nat,
    symbols: Seq<Symbol<'name, S>>,
    incoming: Seq<Symbol<'name, S>>,
    j: int,
)
    requires
        names_unique(incoming),
        0 <= j < incoming.len(),
        resolve_symbols(lens, symbols, incoming) is Ok,
    ensures
        name_value(resolve_symbols(lens, symbols, incoming)->Ok_0.0, incoming[j].name@) == Some(
            met_value(name_value(symbols, incoming[j].name@), shift_symbol(lens, incoming[j]).value),
        ),
    decreases incoming.len(),
{
    let prefix = incoming.drop_last();
    let name = incoming[j].name@;
    assert forall|a: int, b: int|
        0 <= a < prefix.len() && 0 <= b < prefix.len() && #[trigger] prefix[a].name@
            == #[trigger] prefix[b].name@ implies a == b by {
        assert(prefix[a] == incoming[a] && prefix[b] == incoming[b]);
    }
    let before = resolve_symbols(lens, symbols, prefix)->Ok_0.0;
    if j < incoming.len() - 1 {
        assert(prefix[j] == incoming[j]);
        lemma_resolve_symbols_name_value(lens, symbols, prefix, j);
        assert(incoming.last().name@ != name);
        lemma_step_other_name(lens, before, incoming.last(), name);
    } else {
        assert forall|i: int| 0 <= i < prefix.len() implies (#[trigger] prefix[i]).name@ != name by {
            assert(prefix[i] == incoming[i]);
        }
        lemma_resolve_symbols_other_name(lens, symbols, prefix, name);
        lemma_step_same_name(lens, before, incoming.last());
    }
}

} // verus!
