use vstd::arithmetic::div_mod::{
    lemma_div_multiples_vanish_fancy, lemma_mod_breakdown, lemma_mod_mod, lemma_mod_pos_bound,
};
use vstd::arithmetic::power::{lemma_pow_positive, pow};
use vstd::prelude::*;

use crate::object::InMemoryRelocatableObject;
use crate::relocate::{relocate_reference, relocation_result, RelocationError};
use crate::relocation::ResolvingRelocation;
use crate::resolve::{
    lemma_first_stray, lemma_resolve_symbols_conflict, lemma_resolve_symbols_gains_definition,
    lemma_resolve_symbols_name_value, lemma_resolve_symbols_shape, name_value, reports,
    resolve_object, resolve_relocation, resolve_relocations, resolve_symbols,
    resolve_unloadable_sections, sections_satisfy, shift_symbol, slot_lens, ResolveError,
    ResolveFailure,
};
use crate::section::{
    address_of, lemma_same_lengths_same_addresses, lemma_within_total, merge_slots, slot_at,
    total_len, InMemoryLoadableSectionTable, InMemorySectionIndex,
};
use crate::symbol::{names_unique, ResolvingSymbolTable, Symbol, SymbolValue};

verus! {

#[derive(Debug, PartialEq, Eq, Clone)]
pub enum LinkError {
    ResolveError(ResolveError<InMemorySectionIndex>),
    RelocationError(RelocationError),
}

impl From<ResolveError<InMemorySectionIndex>> for LinkError {
    fn from(value: ResolveError<InMemorySectionIndex>) -> (r: Self) {
        Self::ResolveError(value)
    }
}

impl vstd::std_specs::convert::FromSpecImpl<ResolveError<InMemorySectionIndex>> for LinkError {
    open spec fn obeys_from_spec() -> bool {
        true
    }

    open spec fn from_spec(value: ResolveError<InMemorySectionIndex>) -> Self {
        Self::ResolveError(value)
    }
}

impl From<RelocationError> for LinkError {
    fn from(value: RelocationError) -> (r: Self) {
        Self::RelocationError(value)
    }
}

impl vstd::std_specs::convert::FromSpecImpl<RelocationError> for LinkError {
    open spec fn obeys_from_spec() -> bool {
        true
    }

    open spec fn from_spec(value: RelocationError) -> Self {
        Self::RelocationError(value)
    }
}

/// The slot lengths of `slots`, as a function of the slot index.
pub open spec fn seq_lens(slots: Seq<Seq<u8>>) -> spec_fn(InMemorySectionIndex) -> nat {
    |index: InMemorySectionIndex| slot_at(slots, index@ as int).len()
}

/// The slot addresses of `slots`, as a function of the slot index.
pub open spec fn seq_addresses(slots: Seq<Seq<u8>>) -> spec_fn(InMemorySectionIndex) -> nat {
    |index: InMemorySectionIndex| address_of(slots, index@)
}

/// The sections of `objects` merged slot by slot, in order.
pub open spec fn merged_sections<'name>(objects: Seq<InMemoryRelocatableObject<'name>>) -> Seq<
    Seq<u8>,
>
    decreases objects.len(),
{
    if objects.len() == 0 {
        Seq::empty()
    } else {
        merge_slots(merged_sections(objects.drop_last()), objects.last().section_table@)
    }
}

/// Resolving `objects` in order, each against the sections merged before it: the
/// resolving symbols and the resolved relocations; or the failure that stops it.
pub open spec fn resolve_all<'name>(objects: Seq<InMemoryRelocatableObject<'name>>) -> Result<
    (Seq<Symbol<'name, InMemorySectionIndex>>, Seq<ResolvingRelocation<InMemorySectionIndex>>),
    ResolveFailure<InMemorySectionIndex>,
>
    decreases objects.len(),
{
    if objects.len() == 0 {
        Ok((Seq::empty(), Seq::empty()))
    } else {
        match resolve_all(objects.drop_last()) {
            Err(failure) => Err(failure),
            Ok((symbols, relocations)) => {
                let object = objects.last();
                match resolve_object(
                    seq_lens(merged_sections(objects.drop_last())),
                    symbols,
                    object.symbol_table@,
                    object.references@,
                ) {
                    Err(failure) => Err(failure),
                    Ok((after, resolved)) => Ok((after, relocations + resolved)),
                }
            },
        }
    }
}

/// The `n` low bytes of `value`, least significant first.
pub open spec fn le_bytes(value: nat, n: nat) -> Seq<u8>
    decreases n,
{
    if n == 0 {
        Seq::empty()
    } else {
        seq![(value % 256) as u8] + le_bytes(value / 256, (n - 1) as nat)
    }
}

/// `slots` with the bytes of slot `section` from `offset` on replaced by `bytes`.
pub open spec fn patch(slots: Seq<Seq<u8>>, section: int, offset: int, bytes: Seq<u8>) -> Seq<
    Seq<u8>,
> {
    slots.update(
        section,
        slots[section].take(offset) + bytes + slots[section].skip(offset + bytes.len()),
    )
}

/// Patching `slots` at each of `relocations` in order, with the value that relocation
/// computes from the addresses in `slots`, written in `address_len` bytes; or the error
/// of the first relocation that fails.
pub open spec fn relocate_all<'name>(
    slots: Seq<Seq<u8>>,
    symbols: Seq<Symbol<'name, InMemorySectionIndex>>,
    relocations: Seq<ResolvingRelocation<InMemorySectionIndex>>,
    address_len: nat,
) -> Result<Seq<Seq<u8>>, RelocationError>
    decreases relocations.len(),
{
    if relocations.len() == 0 {
        Ok(slots)
    } else {
        match relocate_all(slots, symbols, relocations.drop_last(), address_len) {
            Err(e) => Err(e),
            Ok(image) => {
                let r = relocations.last();
                match relocation_result(r, symbols, seq_addresses(slots)) {
                    Err(e) => Err(e),
                    Ok(value) => Ok(
                        patch(
                            image,
                            r.0.section@ as int,
                            r.0.offset as int,
                            le_bytes(value as nat, address_len),
                        ),
                    ),
                }
            },
        }
    }
}

/// Every relocation of `object` lies in one of its slots with room for `address_len`
/// bytes, and every symbol it defines lies in one of its slots.
pub open spec fn object_wf<'name>(object: InMemoryRelocatableObject<'name>, address_len: nat) -> bool {
    let slots = object.section_table@;
    &&& forall|i: int|
        0 <= i < object.references@.len() ==> {
            let r = #[trigger] object.references@[i];
            r.section@ < slots.len() && r.offset + address_len <= slots[r.section@ as int].len()
        }
    &&& sections_satisfy(
        object.symbol_table@,
        |s: InMemorySectionIndex| s@ < slots.len(),
    )
}

/// Every offset that `symbols` defines stays in a `usize` when `total` is added to it.
pub open spec fn offsets_fit<'name>(
    symbols: Seq<Symbol<'name, InMemorySectionIndex>>,
    total: nat,
) -> bool {
    forall|i: int|
        0 <= i < symbols.len() ==> match (#[trigger] symbols[i]).value {
            SymbolValue::Defined(d) => d.offset + total <= usize::MAX,
            SymbolValue::Undefined => true,
        }
}

/// Every object is well formed, and the merged image, and each symbol offset moved
/// across it, fit in a `usize`.
pub open spec fn objects_wf<'name>(
    objects: Seq<InMemoryRelocatableObject<'name>>,
    address_len: nat,
) -> bool {
    let total = total_len(merged_sections(objects));
    &&& total <= usize::MAX
    &&& forall|k: int|
        0 <= k < objects.len() ==> object_wf(#[trigger] objects[k], address_len) && offsets_fit(
            objects[k].symbol_table@,
            total,
        )
}

/// What the link state holds between objects: each resolved relocation names a symbol of
/// the table and lies in a slot with room for `address_len` bytes, and each definition
/// lies in an existing slot.
pub open spec fn state_ok<'name>(
    slots: Seq<Seq<u8>>,
    symbols: Seq<Symbol<'name, InMemorySectionIndex>>,
    relocations: Seq<ResolvingRelocation<InMemorySectionIndex>>,
    address_len: nat,
) -> bool {
    &&& forall|j: int|
        0 <= j < relocations.len() ==> {
            let r = (#[trigger] relocations[j]).0;
            &&& r.symbol@ < symbols.len()
            &&& r.section@ < slots.len()
            &&& r.offset + address_len <= slots[r.section@ as int].len()
        }
    &&& sections_satisfy(symbols, |s: InMemorySectionIndex| s@ < slots.len())
}

/// Writes the `len` low bytes of `value`, least significant first, at `offset` of `slot`.
fn write_le(slot: &mut Vec<u8>, offset: usize, value: usize, len: usize)
    requires
        offset + len <= old(slot)@.len(),
    ensures
        final(slot)@ == old(slot)@.take(offset as int) + le_bytes(value as nat, len as nat) + old(
            slot,
        )@.skip(offset + len),
{
    let ghost initial = slot@;
    let slot_len = slot.len();
    let mut rest = value;
    proof {
        lemma_le_bytes_len(value as nat, len as nat);
        assert(le_bytes(value as nat, len as nat).skip(0) =~= le_bytes(value as nat, len as nat));
        assert(slot@ =~= initial.take(offset as int) + le_bytes(value as nat, len as nat).take(0)
            + initial.skip(offset as int));
    }
    for i in 0..len
        invariant
            initial == old(slot)@,
            offset + len <= initial.len(),
            slot_len == initial.len(),
            slot@.len() == initial.len(),
            le_bytes(value as nat, len as nat).len() == len,
            slot@ =~= initial.take(offset as int) + le_bytes(value as nat, len as nat).take(i as int)
                + initial.skip(offset + i),
            le_bytes(value as nat, len as nat).skip(i as int) =~= le_bytes(
                rest as nat,
                (len - i) as nat,
            ),
    {
        let ghost bytes = le_bytes(value as nat, len as nat);
        assert(bytes[i as int] == bytes.skip(i as int)[0]);
        assert(bytes.skip(i + 1) =~= bytes.skip(i as int).skip(1));
        slot.set(offset + i, (rest % 256) as u8);
        rest = rest / 256;
        assert(bytes.take(i + 1 as int) =~= bytes.take(i as int).push(bytes[i as int]));
    }
    assert(le_bytes(value as nat, len as nat).take(len as int) =~= le_bytes(value as nat, len as nat));
}

/// Writing in `n` bytes gives `n` bytes.
pub proof fn lemma_le_bytes_len(value: nat, n: nat)
    ensures
        le_bytes(value, n).len() == n,
    decreases n,
{
    if n > 0 {
        lemma_le_bytes_len(value / 256, (n - 1) as nat);
    }
}

/// Merging never shortens a slot: slot `k` of the sections merged from a prefix of
/// `objects` is no longer than slot `k` of those merged from all of them.
proof fn lemma_merged_prefix_slot<'name>(
    objects: Seq<InMemoryRelocatableObject<'name>>,
    i: nat,
    k: int,
)
    requires
        i <= objects.len(),
    ensures
        slot_at(merged_sections(objects.take(i as int)), k).len() <= slot_at(
            merged_sections(objects),
            k,
        ).len(),
    decreases objects.len() - i,
{
    if i < objects.len() {
        lemma_merged_prefix_slot(objects, i + 1, k);
        lemma_merged_step(objects, i);
    } else {
        assert(objects.take(i as int) =~= objects);
    }
}

/// The sections merged from the first `i + 1` objects are those from the first `i`,
/// merged with those of object `i`.
proof fn lemma_merged_step<'name>(objects: Seq<InMemoryRelocatableObject<'name>>, i: nat)
    requires
        i < objects.len(),
    ensures
        merged_sections(objects.take(i + 1 as int)) == merge_slots(
            merged_sections(objects.take(i as int)),
            objects[i as int].section_table@,
        ),
        forall|k: int|
            #![trigger slot_at(merged_sections(objects.take(i + 1 as int)), k)]
            slot_at(merged_sections(objects.take(i + 1 as int)), k).len() == slot_at(
                merged_sections(objects.take(i as int)),
                k,
            ).len() + slot_at(objects[i as int].section_table@, k).len(),
{
    assert(objects.take(i + 1 as int).drop_last() =~= objects.take(i as int));
}

/// Every shift that resolving object `i` makes keeps its offset in a `usize`.
proof fn lemma_object_fits<'name>(
    objects: Seq<InMemoryRelocatableObject<'name>>,
    address_len: nat,
    i: nat,
)
    requires
        objects_wf(objects, address_len),
        i < objects.len(),
    ensures
        crate::resolve::object_fits(
            seq_lens(merged_sections(objects.take(i as int))),
            objects[i as int].symbol_table@,
            objects[i as int].references@,
        ),
{
    let object = objects[i as int];
    let before = merged_sections(objects.take(i as int));
    let all = merged_sections(objects);
    let total = total_len(all);
    assert(object_wf(object, address_len));
    assert forall|j: int| 0 <= j < object.symbol_table@.len() implies crate::resolve::shift_fits(
        seq_lens(before),
        #[trigger] object.symbol_table@[j],
    ) by {
        match object.symbol_table@[j].value {
            SymbolValue::Defined(d) => {
                lemma_merged_prefix_slot(objects, i, d.section@ as int);
                lemma_within_total(all, d.section@ as int);
            },
            SymbolValue::Undefined => {},
        }
    }
    assert forall|j: int| 0 <= j < object.references@.len() implies seq_lens(before)(
        (#[trigger] object.references@[j]).section,
    ) + object.references@[j].offset <= usize::MAX by {
        let r = object.references@[j];
        lemma_merged_step(objects, i);
        lemma_merged_prefix_slot(objects, i + 1, r.section@ as int);
        lemma_within_total(all, r.section@ as int);
        assert(slot_at(merged_sections(objects.take(i + 1 as int)), r.section@ as int).len() == slot_at(
            before,
            r.section@ as int,
        ).len() + slot_at(object.section_table@, r.section@ as int).len());
    }
}

/// Once resolving a prefix of `objects` fails, resolving all of them fails the same way.
proof fn lemma_resolve_all_error_persists<'name>(
    objects: Seq<InMemoryRelocatableObject<'name>>,
    i: nat,
)
    requires
        i <= objects.len(),
        resolve_all(objects.take(i as int)) is Err,
    ensures
        resolve_all(objects) == resolve_all(objects.take(i as int)),
    decreases objects.len() - i,
{
    if i < objects.len() {
        assert(objects.take(i + 1 as int).drop_last() =~= objects.take(i as int));
        lemma_resolve_all_error_persists(objects, i + 1);
    } else {
        assert(objects.take(i as int) =~= objects);
    }
}

/// Once relocating at a prefix of `relocations` fails, relocating at all of them fails
/// with the same error.
proof fn lemma_relocate_all_error_persists<'name>(
    slots: Seq<Seq<u8>>,
    symbols: Seq<Symbol<'name, InMemorySectionIndex>>,
    relocations: Seq<ResolvingRelocation<InMemorySectionIndex>>,
    address_len: nat,
    i: nat,
)
    requires
        i <= relocations.len(),
        relocate_all(slots, symbols, relocations.take(i as int), address_len) is Err,
    ensures
        relocate_all(slots, symbols, relocations, address_len) == relocate_all(
            slots,
            symbols,
            relocations.take(i as int),
            address_len,
        ),
    decreases relocations.len() - i,
{
    if i < relocations.len() {
        assert(relocations.take(i + 1 as int).drop_last() =~= relocations.take(i as int));
        lemma_relocate_all_error_persists(slots, symbols, relocations, address_len, i + 1);
    } else {
        assert(relocations.take(i as int) =~= relocations);
    }
}

/// After resolving any prefix of well-formed `objects`, the link state is as
/// [`state_ok`] says.
proof fn lemma_resolved_state<'name>(
    objects: Seq<InMemoryRelocatableObject<'name>>,
    address_len: nat,
    i: nat,
)
    requires
        objects_wf(objects, address_len),
        i <= objects.len(),
        resolve_all(objects.take(i as int)) is Ok,
    ensures
        ({
            let (symbols, relocations) = resolve_all(objects.take(i as int))->Ok_0;
            state_ok(merged_sections(objects.take(i as int)), symbols, relocations, address_len)
        }),
    decreases i,
{
    if i == 0 {
        assert(objects.take(0) =~= Seq::<InMemoryRelocatableObject<'name>>::empty());
    } else {
        let j = (i - 1) as nat;
        let prefix = objects.take(i as int);
        assert(prefix.drop_last() =~= objects.take(j as int));
        lemma_resolved_state(objects, address_len, j);
        let before = merged_sections(objects.take(j as int));
        let after = merged_sections(prefix);
        let object = objects[j as int];
        let (symbols, relocations) = resolve_all(objects.take(j as int))->Ok_0;
        let lens = seq_lens(before);
        let (symbols2, map) = resolve_symbols(lens, symbols, object.symbol_table@)->Ok_0;
        let resolved = resolve_relocations(lens, map, object.references@);
        lemma_merged_step(objects, j);
        lemma_object_fits(objects, address_len, j);
        assert(object_wf(object, address_len));
        let ok = |s: InMemorySectionIndex| s@ < after.len();
        assert forall|k: int| 0 <= k < symbols.len() implies match (#[trigger] symbols[k]).value {
            SymbolValue::Defined(d) => ok(d.section),
            SymbolValue::Undefined => true,
        } by {
            assert(match symbols[k].value {
                SymbolValue::Defined(d) => d.section@ < before.len(),
                SymbolValue::Undefined => true,
            });
        }
        assert forall|k: int|
            0 <= k < object.symbol_table@.len() implies match (
            #[trigger] object.symbol_table@[k]).value {
            SymbolValue::Defined(d) => ok(d.section),
            SymbolValue::Undefined => true,
        } by {
            assert(match object.symbol_table@[k].value {
                SymbolValue::Defined(d) => d.section@ < object.section_table@.len(),
                SymbolValue::Undefined => true,
            });
        }
        lemma_resolve_symbols_shape(lens, symbols, object.symbol_table@, ok);
        lemma_first_stray(object.references@, map.len());
        let all_relocations = relocations + resolved;
        assert forall|m: int| 0 <= m < all_relocations.len() implies {
            let r = (#[trigger] all_relocations[m]).0;
            &&& r.symbol@ < symbols2.len()
            &&& r.section@ < after.len()
            &&& r.offset + address_len <= after[r.section@ as int].len()
        } by {
            if m < relocations.len() {
                let r = relocations[m].0;
                assert(all_relocations[m] == relocations[m]);
                assert(slot_at(after, r.section@ as int).len() >= slot_at(
                    before,
                    r.section@ as int,
                ).len());
            } else {
                let n = m - relocations.len();
                let source = object.references@[n];
                assert(all_relocations[m] == resolve_relocation(lens, map, source));
                assert(slot_at(after, source.section@ as int).len() == slot_at(
                    before,
                    source.section@ as int,
                ).len() + slot_at(object.section_table@, source.section@ as int).len());
            }
        }
    }
}

/// Links `objects` in order: resolves each object's symbols and relocations against the
/// running tables and merges its sections, then patches every relocation site with the
/// `address_len` low bytes of its value, least significant first.
pub fn link<'name>(objects: Vec<InMemoryRelocatableObject<'name>>, address_len: usize) -> (r: Result<
    InMemoryLoadableSectionTable,
    LinkError,
>)
    requires
        address_len == 1 || address_len == 2 || address_len == 4 || address_len == 8,
        objects_wf(objects@, address_len as nat),
    ensures
        match resolve_all(objects@) {
            Err(failure) => r matches Err(LinkError::ResolveError(e)) && reports(e, failure),
            Ok((symbols, relocations)) => match relocate_all(
                merged_sections(objects@),
                symbols,
                relocations,
                address_len as nat,
            ) {
                Err(e) => r == Err::<InMemoryLoadableSectionTable, LinkError>(
                    LinkError::RelocationError(e),
                ),
                Ok(image) => r matches Ok(t) && t@ == image,
            },
        },
{
    let ghost all = objects@;
    let ghost len = address_len as nat;
    let mut remaining = objects;
    let mut section_table = InMemoryLoadableSectionTable::new();
    let mut symbol_table = ResolvingSymbolTable::new();
    let mut references: Vec<ResolvingRelocation<InMemorySectionIndex>> = Vec::new();

    // Resolve objects
    let count = remaining.len();
    proof {
        assert(all.take(0) =~= Seq::<InMemoryRelocatableObject<'name>>::empty());
        assert(section_table@ =~= merged_sections(all.take(0)));
    }
    let mut i: usize = 0;
    while i < count
        invariant
            count == all.len(),
            i <= count,
            remaining@ =~= all.skip(i as int),
            all == objects@,
            objects_wf(all, len),
            len == address_len,
            section_table@ == merged_sections(all.take(i as int)),
            symbol_table.wf(),
            resolve_all(all.take(i as int)) == Ok::<
                (
                    Seq<Symbol<'name, InMemorySectionIndex>>,
                    Seq<ResolvingRelocation<InMemorySectionIndex>>,
                ),
                ResolveFailure<InMemorySectionIndex>,
            >((symbol_table@, references@)),
        decreases count - i,
    {
        let object = remaining.remove(0);
        assert(object == all[i as int]);
        let InMemoryRelocatableObject {
            section_table: other_sections,
            symbol_table: other_symbols,
            references: other_references,
        } = object;
        proof {
            lemma_object_fits(all, len, i as nat);
            assert(slot_lens(&section_table) =~= seq_lens(section_table@));
            assert(all.take(i + 1 as int).drop_last() =~= all.take(i as int));
            lemma_merged_step(all, i as nat);
        }
        let resolved = resolve_unloadable_sections(
            &section_table,
            &mut symbol_table,
            other_symbols,
            &mut references,
            other_references,
        );
        if let Err(e) = resolved {
            proof {
                lemma_resolve_all_error_persists(all, (i + 1) as nat);
            }
            return Err(LinkError::from(e));
        }
        // Merge loadable sections
        section_table.merge(other_sections);
        i = i + 1;
    }
    proof {
        assert(all.take(count as int) =~= all);
        lemma_resolved_state(all, len, count as nat);
    }
    let ghost merged = section_table@;
    let ghost symbols = symbol_table@;
    let ghost relocations = references@;

    // Relocate references
    proof {
        assert(relocations.take(0) =~= Seq::<ResolvingRelocation<InMemorySectionIndex>>::empty());
    }
    let n = references.len();
    for j in 0..n
        invariant
            n == relocations.len(),
            references@ == relocations,
            symbol_table@ == symbols,
            symbol_table.wf(),
            merged == merged_sections(all),
            all == objects@,
            len == address_len,
            resolve_all(all) == Ok::<
                (
                    Seq<Symbol<'name, InMemorySectionIndex>>,
                    Seq<ResolvingRelocation<InMemorySectionIndex>>,
                ),
                ResolveFailure<InMemorySectionIndex>,
            >((symbols, relocations)),
            total_len(merged) <= usize::MAX,
            state_ok(merged, symbols, relocations, len),
            relocate_all(merged, symbols, relocations.take(j as int), len) == Ok::<
                Seq<Seq<u8>>,
                RelocationError,
            >(section_table@),
            section_table@.len() == merged.len(),
            forall|k: int|
                0 <= k < merged.len() ==> (#[trigger] section_table@[k]).len() == merged[k].len(),
    {
        let reference = &references[j];
        let ghost current = section_table@;
        let ghost rel = reference.0;
        proof {
            assert(relocations.take(j + 1 as int).drop_last() =~= relocations.take(j as int));
            assert(relocations[j as int] == *reference);
            let ok = |s: InMemorySectionIndex| s@ < merged.len();
            assert(match symbols[rel.symbol@ as int].value {
                SymbolValue::Defined(d) => ok(d.section),
                SymbolValue::Undefined => true,
            });
            lemma_same_lengths_same_addresses(current, merged, rel.section@);
            lemma_within_total(merged, rel.section@ as int);
            match symbols[rel.symbol@ as int].value {
                SymbolValue::Defined(d) => {
                    lemma_same_lengths_same_addresses(current, merged, d.section@);
                    lemma_within_total(merged, d.section@ as int);
                },
                SymbolValue::Undefined => {},
            }
        }
        let value = match relocate_reference(reference, &symbol_table, &section_table) {
            Ok(value) => value,
            Err(e) => {
                proof {
                    lemma_relocate_all_error_persists(merged, symbols, relocations, len, (j + 1) as nat);
                }
                return Err(LinkError::from(e));
            },
        };
        // Update the reference value in the corresponding section
        let section = section_table.section_mut(reference.0.section);
        write_le(section, reference.0.offset, value, address_len);
        proof {
            lemma_le_bytes_len(value as nat, len);
            assert(section_table@ =~= patch(
                current,
                rel.section@ as int,
                rel.offset as int,
                le_bytes(value as nat, len),
            ));
        }
    }
    proof {
        assert(relocations.take(n as int) =~= relocations);
    }
    Ok(section_table)
}

/// Only the low `n` bytes of a value are written: writing `value` in `n` bytes writes the
/// same bytes as writing `value` reduced modulo `256^n`.
pub proof fn lemma_le_bytes_low(value: nat, n: nat)
    ensures
        le_bytes(value, n) == le_bytes((value as int % pow(256, n)) as nat, n),
    decreases n,
{
    lemma_pow_positive(256, n);
    if n > 0 {
        let p = pow(256, (n - 1) as nat);
        lemma_pow_positive(256, (n - 1) as nat);
        assert(pow(256, n) == 256 * p) by {
            reveal(pow);
        }
        let v = value as int;
        let low = v % (256 * p);
        lemma_mod_pos_bound(value as int, 256 * p);
        lemma_mod_mod(value as int, 256, p);
        lemma_mod_breakdown(value as int, 256, p);
        lemma_mod_pos_bound(value as int, 256);
        lemma_div_multiples_vanish_fancy((v / 256) % p, v % 256, 256);
        assert(low / 256 == (v / 256) % p);
        lemma_le_bytes_low(value / 256, (n - 1) as nat);
        lemma_le_bytes_low(low as nat, 0);
    }
}

/// Slot `i` of `objects`' sections, one object after the other, a missing slot counting
/// as empty.
pub open spec fn slot_concat<'name>(objects: Seq<InMemoryRelocatableObject<'name>>, i: int) -> Seq<
    u8,
>
    decreases objects.len(),
{
    if objects.len() == 0 {
        Seq::empty()
    } else {
        slot_concat(objects.drop_last(), i) + slot_at(objects.last().section_table@, i)
    }
}

/// Before patching, slot `i` of the linked image is slot `i` of every object, in object
/// order, a missing slot counting as empty.
pub proof fn lemma_slot_concatenation<'name>(objects: Seq<InMemoryRelocatableObject<'name>>, i: int)
    ensures
        slot_at(merged_sections(objects), i) == slot_concat(objects, i),
    decreases objects.len(),
{
    if objects.len() > 0 {
        lemma_slot_concatenation(objects.drop_last(), i);
        let before = merged_sections(objects.drop_last());
        let last = objects.last().section_table@;
        if !(0 <= i < merged_sections(objects).len()) {
            assert(slot_at(before, i) =~= Seq::<u8>::empty());
            assert(slot_at(last, i) =~= Seq::<u8>::empty());
            assert(slot_concat(objects, i) =~= slot_concat(objects.drop_last(), i));
        }
    } else {
        assert(slot_at(merged_sections(objects), i) =~= slot_concat(objects, i));
    }
}

/// Objects without relocations link to the plain merge of their sections, wherever their
/// symbols resolve.
pub proof fn lemma_no_relocations_is_plain_merge<'name>(
    objects: Seq<InMemoryRelocatableObject<'name>>,
    address_len: nat,
)
    requires
        forall|k: int| 0 <= k < objects.len() ==> (#[trigger] objects[k]).references@.len() == 0,
    ensures
        resolve_all(objects) is Ok ==> {
            let (symbols, relocations) = resolve_all(objects)->Ok_0;
            &&& relocations.len() == 0
            &&& relocate_all(merged_sections(objects), symbols, relocations, address_len) == Ok::<
                Seq<Seq<u8>>,
                RelocationError,
            >(merged_sections(objects))
        },
    decreases objects.len(),
{
    if objects.len() > 0 {
        let prefix = objects.drop_last();
        assert forall|k: int| 0 <= k < prefix.len() implies (#[trigger] prefix[k]).references@.len()
            == 0 by {
            assert(prefix[k] == objects[k]);
        }
        lemma_no_relocations_is_plain_merge(prefix, address_len);
        let last = objects.last();
        assert(last.references@ =~= Seq::<crate::relocation::Relocation<InMemorySectionIndex>>::empty());
        if resolve_all(objects) is Ok {
            let (symbols, relocations) = resolve_all(prefix)->Ok_0;
            let (after, map) = resolve_symbols(
                seq_lens(merged_sections(prefix)),
                symbols,
                last.symbol_table@,
            )->Ok_0;
            assert(resolve_relocations(seq_lens(merged_sections(prefix)), map, last.references@)
                =~= Seq::<ResolvingRelocation<InMemorySectionIndex>>::empty());
        }
    }
}

/// Linking two objects that both define a symbol of the same name fails on a symbol
/// defined twice, wherever the first object's relocations name only its own symbols.
pub proof fn lemma_conflict_detected<'name>(
    first: InMemoryRelocatableObject<'name>,
    second: InMemoryRelocatableObject<'name>,
    i: int,
    j: int,
)
    requires
        0 <= i < first.symbol_table@.len(),
        0 <= j < second.symbol_table@.len(),
        first.symbol_table@[i].value is Defined,
        second.symbol_table@[j].value is Defined,
        first.symbol_table@[i].name@ == second.symbol_table@[j].name@,
        forall|k: int|
            0 <= k < first.references@.len() ==> (#[trigger] first.references@[k]).symbol@
                < first.symbol_table@.len(),
    ensures
        resolve_all(seq![first, second]) matches Err(ResolveFailure::Conflict(_)),
{
    let objects = seq![first, second];
    let one = objects.drop_last();
    assert(one =~= seq![first]);
    assert(one.drop_last() =~= Seq::<InMemoryRelocatableObject<'name>>::empty());
    let empty_lens = seq_lens(merged_sections(one.drop_last()));
    let incoming = first.symbol_table@;
    assert(resolve_all(one.drop_last()) == Ok::<
        (Seq<Symbol<'name, InMemorySectionIndex>>, Seq<ResolvingRelocation<InMemorySectionIndex>>),
        ResolveFailure<InMemorySectionIndex>,
    >((Seq::empty(), Seq::empty())));
    assert(one.last() == first);
    assert(objects.drop_last() == one);
    assert(objects.last() == second);
    if resolve_symbols(empty_lens, Seq::empty(), incoming) is Ok {
        let (after, map) = resolve_symbols(empty_lens, Seq::empty(), incoming)->Ok_0;
        lemma_resolve_symbols_shape(empty_lens, Seq::empty(), incoming, |s: InMemorySectionIndex| true);
        lemma_first_stray(first.references@, map.len());
        lemma_resolve_symbols_gains_definition(empty_lens, Seq::empty(), incoming, i);
        assert(resolve_all(one) == Ok::<
            (
                Seq<Symbol<'name, InMemorySectionIndex>>,
                Seq<ResolvingRelocation<InMemorySectionIndex>>,
            ),
            ResolveFailure<InMemorySectionIndex>,
        >((after, Seq::empty() + resolve_relocations(empty_lens, map, first.references@))));
        lemma_resolve_symbols_conflict(
            seq_lens(merged_sections(one)),
            after,
            second.symbol_table@,
            j,
        );
    }
}

/// A definition in one object and a reference to it in another give the name the same
/// value whichever object is linked first, where the referring object holds nothing in the
/// definition's slot (else the definition moves past those bytes when linked second).
pub proof fn lemma_definition_meets_reference_in_either_order<'name>(
    defining: InMemoryRelocatableObject<'name>,
    referring: InMemoryRelocatableObject<'name>,
    i: int,
    j: int,
)
    requires
        names_unique(defining.symbol_table@),
        names_unique(referring.symbol_table@),
        0 <= i < defining.symbol_table@.len(),
        0 <= j < referring.symbol_table@.len(),
        defining.symbol_table@[i].value is Defined,
        referring.symbol_table@[j].value is Undefined,
        defining.symbol_table@[i].name@ == referring.symbol_table@[j].name@,
        slot_at(
            referring.section_table@,
            defining.symbol_table@[i].value->Defined_0.section@ as int,
        ).len() == 0,
        resolve_all(seq![defining, referring]) is Ok,
        resolve_all(seq![referring, defining]) is Ok,
    ensures
        name_value(
            resolve_all(seq![defining, referring])->Ok_0.0,
            defining.symbol_table@[i].name@,
        ) == Some(defining.symbol_table@[i].value),
        name_value(
            resolve_all(seq![referring, defining])->Ok_0.0,
            defining.symbol_table@[i].name@,
        ) == Some(defining.symbol_table@[i].value),
{
    let name = defining.symbol_table@[i].name@;
    let definition = defining.symbol_table@[i].value->Defined_0;
    let none = Seq::<InMemoryRelocatableObject<'name>>::empty();
    let lens0 = seq_lens(merged_sections(none));
    assert(resolve_all(none) == Ok::<
        (Seq<Symbol<'name, InMemorySectionIndex>>, Seq<ResolvingRelocation<InMemorySectionIndex>>),
        ResolveFailure<InMemorySectionIndex>,
    >((Seq::empty(), Seq::empty())));
    assert(name_value(Seq::<Symbol<'name, InMemorySectionIndex>>::empty(), name) is None);

    // Defining object first.
    let first = seq![defining, referring];
    assert(first.drop_last() =~= seq![defining]);
    assert(seq![defining].drop_last() =~= none);
    assert(first.last() == referring);
    assert(seq![defining].last() == defining);
    assert(resolve_all(seq![defining]) is Ok);
    assert(resolve_object(lens0, Seq::empty(), defining.symbol_table@, defining.references@) is Ok);
    let defined = resolve_symbols(lens0, Seq::empty(), defining.symbol_table@)->Ok_0.0;
    lemma_resolve_symbols_name_value(lens0, Seq::empty(), defining.symbol_table@, i);
    assert(shift_symbol(lens0, defining.symbol_table@[i]).value == defining.symbol_table@[i].value);
    let lens1 = seq_lens(merged_sections(seq![defining]));
    lemma_resolve_symbols_name_value(lens1, defined, referring.symbol_table@, j);

    // Referring object first.
    let second = seq![referring, defining];
    assert(second.drop_last() =~= seq![referring]);
    assert(seq![referring].drop_last() =~= none);
    assert(second.last() == defining);
    assert(seq![referring].last() == referring);
    assert(resolve_all(seq![referring]) is Ok);
    assert(resolve_object(lens0, Seq::empty(), referring.symbol_table@, referring.references@)
        is Ok);
    let referred = resolve_symbols(lens0, Seq::empty(), referring.symbol_table@)->Ok_0.0;
    lemma_resolve_symbols_name_value(lens0, Seq::empty(), referring.symbol_table@, j);
    let lens2 = seq_lens(merged_sections(seq![referring]));
    assert(merged_sections(seq![referring]) == merge_slots(
        Seq::empty(),
        referring.section_table@,
    ));
    assert(lens2(definition.section) == 0);
    lemma_resolve_symbols_name_value(lens2, referred, defining.symbol_table@, i);
    assert(shift_symbol(lens2, defining.symbol_table@[i]).value == defining.symbol_table@[i].value);
}

} // verus!
