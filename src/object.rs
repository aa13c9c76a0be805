use vstd::prelude::*;

use crate::relocation::Relocation;
use crate::section::{InMemoryLoadableSectionTable, InMemorySectionIndex};
use crate::symbol::SymbolTable;

verus! {

/// A relocatable object: its sections, its symbols and its relocations.
pub struct InMemoryRelocatableObject<'name> {
    pub section_table: InMemoryLoadableSectionTable,
    pub symbol_table: SymbolTable<'name, InMemorySectionIndex>,
    pub references: Vec<Relocation<InMemorySectionIndex>>,
}

} // verus!
