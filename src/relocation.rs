use vstd::prelude::*;

use crate::section::SectionIndex;
use crate::symbol::SymbolIndex;

verus! {

/// A reference from a section to a symbol, waiting to be patched.
#[derive(Debug, Copy, Clone, PartialEq, Eq)]
pub struct Relocation<S> where S: SectionIndex {
    /// The position of the reference in its section.
    pub offset: usize,
    /// The section that the symbol reference is in.
    pub section: S,
    pub typ: RelocationType,
    pub symbol: SymbolIndex,
    pub addend: isize,
}

#[derive(Debug, Copy, Clone, PartialEq, Eq)]
pub enum RelocationType {
    PcRelative,
    Absolute,
}

/// A relocation whose symbol indexes the resolving symbol table and whose offset counts
/// from the start of the merged slot.
pub struct ResolvingRelocation<S>(pub Relocation<S>) where S: SectionIndex;

impl<S> core::ops::Deref for ResolvingRelocation<S> where S: SectionIndex {
    type Target = Relocation<S>;

    fn deref(&self) -> (r: &Relocation<S>)
        ensures
            *r == self.0,
    {
        &self.0
    }
}

/// Another name for [`ResolvingRelocation`].
pub type ResolvedRelocation<S> = ResolvingRelocation<S>;

} // verus!
