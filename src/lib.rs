//! The core of a minimal static linker: symbol resolution across relocatable objects,
//! slot-wise concatenation of their sections, and patching of relocation sites.
use vstd::prelude::*;

pub mod link;
pub mod object;
pub mod relocate;
pub mod relocation;
pub mod resolve;
pub mod section;
pub mod symbol;

pub use link::{link, LinkError};
pub use object::InMemoryRelocatableObject;
pub use relocate::{relocate_reference, RelocationError};
pub use relocation::{Relocation, RelocationType, ResolvedRelocation, ResolvingRelocation};
pub use resolve::{resolve_unloadable_sections, ResolveError};
pub use section::{
    InMemoryLoadableSectionTable, InMemorySectionIndex, LoadableSectionTable, SectionIndex,
};
pub use symbol::{
    ResolvedSymbolTable, ResolvingSymbolTable, Symbol, SymbolDefinition, SymbolIndex, SymbolTable,
    SymbolValue,
};

verus! {

} // verus!
