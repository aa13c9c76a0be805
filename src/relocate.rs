use vstd::arithmetic::div_mod::{lemma_mod_multiples_vanish, lemma_small_mod};
use vstd::prelude::*;

use crate::relocation::{RelocationType, ResolvingRelocation};
use crate::section::{LoadableSectionTable, SectionIndex};
use crate::symbol::{ResolvingSymbolTable, Symbol, SymbolValue};

verus! {

#[derive(Debug, PartialEq, Eq, Clone, Copy)]
pub enum RelocationError {
    /// The symbol that a relocation refers to has no definition.
    SymbolNotDefined,
}

/// The number of values a `usize` holds.
pub open spec fn word_modulus() -> int {
    usize::MAX as int + 1
}

/// `x` reduced modulo the width of `usize`.
pub open spec fn wrap(x: int) -> int {
    x % word_modulus()
}

/// The value written at a reference of kind `typ` at `reference_address` to a symbol at
/// `symbol_address`, with `addend` added, modulo the width of `usize`.
pub open spec fn reference_value(
    typ: RelocationType,
    symbol_address: int,
    reference_address: int,
    addend: int,
) -> int {
    match typ {
        RelocationType::PcRelative => wrap(symbol_address - reference_address + addend),
        RelocationType::Absolute => wrap(symbol_address + addend),
    }
}

/// Whether the addresses that relocating `reference` reads can be computed in
/// `section_table`: its own slot's, and its symbol's slot's where the symbol is defined.
pub open spec fn can_relocate<'name, S: SectionIndex, ST: LoadableSectionTable<S>>(
    reference: &ResolvingRelocation<S>,
    symbol_table: &ResolvingSymbolTable<'name, S>,
    section_table: &ST,
) -> bool {
    &&& reference.0.symbol@ < symbol_table@.len()
    &&& section_table.has_address(reference.0.section)
    &&& match symbol_table@[reference.0.symbol@ as int].value {
        SymbolValue::Defined(d) => section_table.has_address(d.section),
        SymbolValue::Undefined => true,
    }
}

/// The slot addresses of `table`, as a function of the slot index.
pub open spec fn slot_addresses<S: SectionIndex, ST: LoadableSectionTable<S>>(
    table: &ST,
) -> spec_fn(S) -> nat {
    |index: S| table.slot_address(index)
}

/// What relocating `reference` against the resolving symbols `symbols` and the slot
/// addresses `addresses` gives: the value to write at the reference, or the error.
pub open spec fn relocation_result<'name, S: SectionIndex>(
    reference: ResolvingRelocation<S>,
    symbols: Seq<Symbol<'name, S>>,
    addresses: spec_fn(S) -> nat,
) -> Result<usize, RelocationError> {
    match symbols[reference.0.symbol@ as int].value {
        SymbolValue::Undefined => Err(RelocationError::SymbolNotDefined),
        SymbolValue::Defined(d) => Ok(
            reference_value(
                reference.0.typ,
                addresses(d.section) + d.offset,
                addresses(reference.0.section) + reference.0.offset,
                reference.0.addend as int,
            ) as usize,
        ),
    }
}

/// Computes the value to write at `reference`, from the final addresses of its symbol and
/// of the reference itself in `section_table`.
pub fn relocate_reference<'name, S, ST>(
    reference: &ResolvingRelocation<S>,
    symbol_table: &ResolvingSymbolTable<'name, S>,
    section_table: &ST,
) -> (r: Result<usize, RelocationError>) where S: SectionIndex, ST: LoadableSectionTable<S>
    requires
        can_relocate(reference, symbol_table, section_table),
    ensures
        r == relocation_result(*reference, symbol_table@, slot_addresses(section_table)),
{
    let reference_section = reference.0.section;
    let symbol_definition = match symbol_table.get(reference.0.symbol).value {
        SymbolValue::Defined(definition) => definition,
        SymbolValue::Undefined => {
            return Err(RelocationError::SymbolNotDefined);
        },
    };
    let new_reference_value = relocated_value(
        reference,
        symbol_definition.offset,
        section_table.address(symbol_definition.section),
        section_table.address(reference_section),
    );
    Ok(new_reference_value)
}

/// `x` is `y` up to a multiple of the width of `usize`, and a `usize` itself.
proof fn lemma_wrap_of_congruent(x: int, y: int, k: int)
    requires
        0 <= x < word_modulus(),
        x == y + k * word_modulus(),
    ensures
        x == wrap(y),
{
    lemma_mod_multiples_vanish(k, y, word_modulus());
    assert(word_modulus() * k == k * word_modulus()) by (nonlinear_arith);
    lemma_small_mod(x as nat, word_modulus() as nat);
}

/// The value to write at `reference`, given the symbol's offset and the addresses of the
/// slots that hold the symbol and the reference.
fn relocated_value<S: SectionIndex>(
    reference: &ResolvingRelocation<S>,
    symbol_offset: usize,
    new_symbol_section_address: usize,
    new_ref_section_address: usize,
) -> (r: usize)
    ensures
        r == reference_value(
            reference.0.typ,
            new_symbol_section_address + symbol_offset,
            new_ref_section_address + reference.0.offset,
            reference.0.addend as int,
        ),
{
    let new_symbol_address = symbol_offset.wrapping_add(new_symbol_section_address);
    let new_ref_address = reference.0.offset.wrapping_add(new_ref_section_address);
    let new_reference_value = match reference.0.typ {
        RelocationType::PcRelative => new_symbol_address.wrapping_sub(new_ref_address),
        RelocationType::Absolute => new_symbol_address,
    };
    let r = new_reference_value.wrapping_add_signed(reference.0.addend);
    proof {
        let a: int = new_symbol_section_address + symbol_offset;
        let b: int = new_ref_section_address + reference.0.offset;
        let c: int = reference.0.addend as int;
        let ka: int = if a > usize::MAX { -1 } else { 0 };
        let kb: int = if b > usize::MAX { -1 } else { 0 };
        assert(new_symbol_address == a + ka * word_modulus()) by {
            if a > usize::MAX {
                assert(ka * word_modulus() == -word_modulus());
            } else {
                assert(ka * word_modulus() == 0);
            }
        }
        match reference.0.typ {
            RelocationType::PcRelative => {
                let ref_address: int = b + kb * word_modulus();
                assert(new_ref_address == ref_address) by {
                    if b > usize::MAX {
                        assert(kb * word_modulus() == -word_modulus());
                    } else {
                        assert(kb * word_modulus() == 0);
                    }
                }
                let kd: int = if new_symbol_address - ref_address < 0 { 1 } else { 0 };
                assert(new_reference_value == new_symbol_address - ref_address + kd * word_modulus());
                let ke: int = if new_reference_value + c > usize::MAX {
                    -1
                } else if new_reference_value + c < 0 {
                    1
                } else {
                    0
                };
                assert(r == new_reference_value + c + ke * word_modulus());
                assert(r == (a - b + c) + (ka - kb + kd + ke) * word_modulus()) by (nonlinear_arith)
                    requires
                        r == new_reference_value + c + ke * word_modulus(),
                        new_reference_value == new_symbol_address - ref_address + kd * word_modulus(),
                        new_symbol_address == a + ka * word_modulus(),
                        ref_address == b + kb * word_modulus(),
                ;
                lemma_wrap_of_congruent(r as int, a - b + c, ka - kb + kd + ke);
            },
            RelocationType::Absolute => {
                let ke: int = if new_reference_value + c > usize::MAX {
                    -1
                } else if new_reference_value + c < 0 {
                    1
                } else {
                    0
                };
                assert(r == new_reference_value + c + ke * word_modulus());
                assert(r == (a + c) + (ka + ke) * word_modulus()) by (nonlinear_arith)
                    requires
                        r == new_reference_value + c + ke * word_modulus(),
                        new_reference_value == a + ka * word_modulus(),
                ;
                lemma_wrap_of_congruent(r as int, a + c, ka + ke);
            },
        }
    }
    r
}

} // verus!
