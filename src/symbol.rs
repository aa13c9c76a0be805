use vstd::prelude::*;

use crate::section::SectionIndex;

verus! {

/// A named location, or a placeholder for one that another object provides.
#[derive(Debug, Copy, Clone, PartialEq, Eq, Hash)]
pub struct Symbol<'name, S> where S: SectionIndex {
    pub name: &'name str,
    pub value: SymbolValue<S>,
}

/// Position of a symbol in a symbol table.
#[derive(Debug, Copy, Clone, PartialEq, Eq, Hash)]
pub struct SymbolIndex(usize);

impl View for SymbolIndex {
    type V = nat;

    closed spec fn view(&self) -> nat {
        self.0 as nat
    }
}

impl SymbolIndex {
    /// The index of position `i`.
    pub closed spec fn at(i: nat) -> SymbolIndex {
        SymbolIndex(i as usize)
    }

    /// The index of position `i` stands for `i` wherever `i` fits in a `usize`.
    pub proof fn lemma_at(i: nat)
        ensures
            Self::at(i)@ <= i,
            i <= usize::MAX ==> Self::at(i)@ == i,
    {
    }

    /// Every index is the index of its own position.
    pub proof fn lemma_at_view(x: SymbolIndex)
        ensures
            Self::at(x@) == x,
    {
    }

    /// The position that this index stands for.
    pub(crate) fn position(&self) -> (r: usize)
        ensures
            r == self@,
    {
        self.0
    }

}

#[derive(Debug, Copy, Clone, PartialEq, Eq, Hash)]
pub enum SymbolValue<S> where S: SectionIndex {
    Undefined,
    Defined(SymbolDefinition<S>),
}

#[derive(Debug, Copy, Clone, PartialEq, Eq, Hash)]
pub struct SymbolDefinition<S> where S: SectionIndex {
    pub section: S,
    pub offset: usize,
    pub size: usize,
}

/// Relies on `str`'s `==`: two string slices are equal exactly when they hold the same
/// characters.
#[verifier::external_body]
fn same_name(a: &str, b: &str) -> (r: bool)
    ensures
        r == (a@ == b@),
{
    a == b
}

/// The position of the first symbol of `symbols` named `name`, if any.
pub open spec fn name_index<'name, S: SectionIndex>(
    symbols: Seq<Symbol<'name, S>>,
    name: Seq<char>,
) -> Option<nat>
    decreases symbols.len(),
{
    if symbols.len() == 0 {
        None
    } else {
        match name_index(symbols.drop_last(), name) {
            Some(i) => Some(i),
            None => if symbols.last().name@ == name {
                Some((symbols.len() - 1) as nat)
            } else {
                None
            },
        }
    }
}

/// No two symbols share a name.
pub open spec fn names_unique<'name, S: SectionIndex>(symbols: Seq<Symbol<'name, S>>) -> bool {
    forall|i: int, j: int|
        0 <= i < symbols.len() && 0 <= j < symbols.len() && #[trigger] symbols[i].name@
            == #[trigger] symbols[j].name@ ==> i == j
}

/// What [`name_index`] finds: the first symbol of that name.
pub proof fn lemma_name_index<'name, S: SectionIndex>(
    symbols: Seq<Symbol<'name, S>>,
    name: Seq<char>,
)
    ensures
        match name_index(symbols, name) {
            Some(i) => i < symbols.len() && symbols[i as int].name@ == name && forall|j: int|
                0 <= j < i ==> #[trigger] symbols[j].name@ != name,
            None => forall|j: int| 0 <= j < symbols.len() ==> #[trigger] symbols[j].name@ != name,
        },
    decreases symbols.len(),
{
    if symbols.len() > 0 {
        let prefix = symbols.drop_last();
        lemma_name_index(prefix, name);
        match name_index(prefix, name) {
            Some(i) => {
                assert forall|j: int| 0 <= j < i implies #[trigger] symbols[j].name@ != name by {
                    assert(prefix[j] == symbols[j]);
                }
            },
            None => {
                assert forall|j: int| 0 <= j < prefix.len() implies #[trigger] symbols[j].name@
                    != name by {
                    assert(prefix[j] == symbols[j]);
                }
            },
        }
    }
}

/// Appending a symbol leaves the position found for each name unless that name was
/// missing and the new symbol carries it.
pub proof fn lemma_name_index_push<'name, S: SectionIndex>(
    symbols: Seq<Symbol<'name, S>>,
    symbol: Symbol<'name, S>,
    name: Seq<char>,
)
    ensures
        name_index(symbols.push(symbol), name) == match name_index(symbols, name) {
            Some(i) => Some(i),
            None => if symbol.name@ == name {
                Some(symbols.len())
            } else {
                None
            },
        },
{
    assert(symbols.push(symbol).drop_last() =~= symbols);
}

/// Replacing a symbol by one of the same name leaves the position found for each name.
pub proof fn lemma_name_index_update<'name, S: SectionIndex>(
    symbols: Seq<Symbol<'name, S>>,
    e: int,
    symbol: Symbol<'name, S>,
    name: Seq<char>,
)
    requires
        0 <= e < symbols.len(),
        symbol.name@ == symbols[e].name@,
    ensures
        name_index(symbols.update(e, symbol), name) == name_index(symbols, name),
{
    let updated = symbols.update(e, symbol);
    lemma_name_index(symbols, name);
    lemma_name_index(updated, name);
    assert forall|j: int| 0 <= j < symbols.len() implies (#[trigger] updated[j]).name@
        == symbols[j].name@ by {}
    match name_index(symbols, name) {
        Some(b) => {
            assert(updated[b as int].name@ == name);
            match name_index(updated, name) {
                Some(a) => {
                    assert(symbols[a as int].name@ == name);
                },
                None => {},
            }
        },
        None => {
            match name_index(updated, name) {
                Some(a) => {
                    assert(symbols[a as int].name@ == name);
                },
                None => {},
            }
        },
    }
}

/// Appending a symbol whose name is missing keeps names unique; so does replacing a symbol
/// by one of the same name.
pub proof fn lemma_names_unique_steps<'name, S: SectionIndex>(
    symbols: Seq<Symbol<'name, S>>,
    e: int,
    symbol: Symbol<'name, S>,
)
    requires
        names_unique(symbols),
    ensures
        name_index(symbols, symbol.name@) is None ==> names_unique(symbols.push(symbol)),
        0 <= e < symbols.len() && symbol.name@ == symbols[e].name@ ==> names_unique(
            symbols.update(e, symbol),
        ),
{
    lemma_name_index(symbols, symbol.name@);
    let pushed = symbols.push(symbol);
    if name_index(symbols, symbol.name@) is None {
        assert forall|i: int, j: int|
            0 <= i < pushed.len() && 0 <= j < pushed.len() && #[trigger] pushed[i].name@
                == #[trigger] pushed[j].name@ implies i == j by {
            if i < symbols.len() && j < symbols.len() {
                assert(symbols[i].name@ == symbols[j].name@);
            }
        }
    }
    if 0 <= e < symbols.len() && symbol.name@ == symbols[e].name@ {
        let updated = symbols.update(e, symbol);
        assert forall|i: int, j: int|
            0 <= i < updated.len() && 0 <= j < updated.len() && #[trigger] updated[i].name@
                == #[trigger] updated[j].name@ implies i == j by {
            assert(updated[i].name@ == symbols[i].name@);
            assert(updated[j].name@ == symbols[j].name@);
        }
    }
}

/// An append-only list of symbols.
pub struct SymbolTable<'name, S>(Vec<Symbol<'name, S>>) where S: SectionIndex;

impl<'name, S> View for SymbolTable<'name, S> where S: SectionIndex {
    type V = Seq<Symbol<'name, S>>;

    closed spec fn view(&self) -> Seq<Symbol<'name, S>> {
        self.0@
    }
}

impl<'name, S> SymbolTable<'name, S> where S: SectionIndex {
    pub fn new() -> (r: Self)
        ensures
            r@ == Seq::<Symbol<'name, S>>::empty(),
    {
        SymbolTable(Vec::new())
    }

    /// Appends `symbol` and returns its index.
    pub fn add(&mut self, symbol: Symbol<'name, S>) -> (r: SymbolIndex)
        ensures
            final(self)@ == old(self)@.push(symbol),
            r@ == old(self)@.len(),
            r == SymbolIndex::at(old(self)@.len()),
    {
        let index = SymbolIndex(self.0.len());
        self.0.push(symbol);
        index
    }

    pub fn get(&self, index: SymbolIndex) -> (r: &Symbol<'name, S>)
        requires
            index@ < self@.len(),
        ensures
            *r == self@[index@ as int],
    {
        &self.0[index.0]
    }

    pub fn replace(&mut self, index: SymbolIndex, symbol: Symbol<'name, S>)
        requires
            index@ < old(self)@.len(),
        ensures
            final(self)@ == old(self)@.update(index@ as int, symbol),
    {
        self.0.set(index.0, symbol);
    }

    pub fn len(&self) -> (r: usize)
        ensures
            r == self@.len(),
    {
        self.0.len()
    }

    /// The symbols in order, each with its index.
    pub fn into_iter(self) -> (r: Vec<(SymbolIndex, Symbol<'name, S>)>)
        ensures
            r@.len() == self@.len(),
            forall|i: int|
                0 <= i < r@.len() ==> (#[trigger] r@[i]).0@ == i && r@[i].1 == self@[i],
    {
        let mut r: Vec<(SymbolIndex, Symbol<'name, S>)> = Vec::new();
        let n = self.0.len();
        for i in 0..n
            invariant
                n == self@.len(),
                r@.len() == i,
                forall|j: int| 0 <= j < i ==> (#[trigger] r@[j]).0@ == j && r@[j].1 == self@[j],
        {
            r.push((SymbolIndex(i), self.0[i]));
        }
        r
    }
}

/// A symbol table in which each name occurs at most once, with lookup by name.
pub struct ResolvingSymbolTable<'name, S> where S: SectionIndex {
    inner: SymbolTable<'name, S>,
}

/// Another name for [`ResolvingSymbolTable`].
pub type ResolvedSymbolTable<'name, S> = ResolvingSymbolTable<'name, S>;

impl<'name, S> View for ResolvingSymbolTable<'name, S> where S: SectionIndex {
    type V = Seq<Symbol<'name, S>>;

    closed spec fn view(&self) -> Seq<Symbol<'name, S>> {
        self.inner@
    }
}

impl<'name, S> core::ops::Deref for ResolvingSymbolTable<'name, S> where S: SectionIndex {
    type Target = SymbolTable<'name, S>;

    fn deref(&self) -> (r: &SymbolTable<'name, S>)
        ensures
            r@ == self@,
    {
        &self.inner
    }
}

impl<'name, S> ResolvingSymbolTable<'name, S> where S: SectionIndex {
    /// No two symbols of the table share a name.
    pub open spec fn wf(&self) -> bool {
        names_unique(self@)
    }

    pub fn new() -> (r: Self)
        ensures
            r@ == Seq::<Symbol<'name, S>>::empty(),
            r.wf(),
    {
        Self { inner: SymbolTable::new() }
    }

    /// Appends `symbol`, whose name the table does not hold yet, and returns its index.
    pub fn add(&mut self, symbol: Symbol<'name, S>) -> (r: SymbolIndex)
        requires
            old(self).wf(),
            name_index(old(self)@, symbol.name@) is None,
        ensures
            final(self).wf(),
            final(self)@ == old(self)@.push(symbol),
            r@ == old(self)@.len(),
            r == SymbolIndex::at(old(self)@.len()),
    {
        proof {
            lemma_name_index(self@, symbol.name@);
        }
        self.inner.add(symbol)
    }

    pub fn get(&self, index: SymbolIndex) -> (r: &Symbol<'name, S>)
        requires
            index@ < self@.len(),
        ensures
            *r == self@[index@ as int],
    {
        self.inner.get(index)
    }

    /// The symbol named `name`, if the table holds one.
    pub fn get_by_name(&self, name: &str) -> (r: Option<&Symbol<'name, S>>)
        ensures
            match name_index(self@, name@) {
                Some(i) => r matches Some(s) && *s == self@[i as int],
                None => r is None,
            },
    {
        proof {
            lemma_name_index(self@, name@);
        }
        match self.get_index_by_name(name) {
            Some(index) => Some(self.inner.get(index)),
            None => None,
        }
    }

    /// The index of the symbol named `name`, if the table holds one.
    pub fn get_index_by_name(&self, name: &str) -> (r: Option<SymbolIndex>)
        ensures
            match name_index(self@, name@) {
                Some(i) => r == Some(SymbolIndex::at(i)) && r->Some_0@ == i,
                None => r is None,
            },
    {
        let n = self.inner.len();
        for i in 0..n
            invariant
                n == self@.len(),
                forall|j: int| 0 <= j < i ==> #[trigger] self@[j].name@ != name@,
        {
            if same_name(self.inner.get(SymbolIndex(i)).name, name) {
                proof {
                    lemma_name_index(self@, name@);
                }
                assert(self@[i as int].name@ == name@);
                return Some(SymbolIndex(i));
            }
        }
        proof {
            lemma_name_index(self@, name@);
        }
        None
    }

    /// Puts `symbol` at `index`; its name must not be held by another index.
    pub fn replace(&mut self, index: SymbolIndex, symbol: Symbol<'name, S>)
        requires
            old(self).wf(),
            index@ < old(self)@.len(),
            name_index(old(self)@, symbol.name@) is None || name_index(old(self)@, symbol.name@)
                == Some(index@),
        ensures
            final(self).wf(),
            final(self)@ == old(self)@.update(index@ as int, symbol),
    {
        proof {
            lemma_name_index(self@, symbol.name@);
        }
        self.inner.replace(index, symbol);
    }
}

} // verus!
