use vstd::prelude::*;

verus! {

/// Identifies a slot of a section table.
pub trait SectionIndex: Copy + Clone + PartialEq + Eq + core::fmt::Debug {

}

/// An ordered table of section slots, each a buffer of bytes.
pub trait LoadableSectionTable<S: SectionIndex> {
    /// The length of slot `index`, zero where that slot does not exist.
    spec fn slot_len(&self, index: S) -> nat;

    /// Whether the slots before `index` all exist and their lengths sum to a `usize`.
    spec fn has_address(&self, index: S) -> bool;

    /// The sum of the lengths of the slots before `index`.
    spec fn slot_address(&self, index: S) -> nat;

    fn len(&self, index: S) -> (r: usize)
        ensures
            r == self.slot_len(index),
    ;

    fn address(&self, index: S) -> (r: usize)
        requires
            self.has_address(index),
        ensures
            r == self.slot_address(index),
    ;
}

/// The sum of the lengths of all slots.
pub open spec fn total_len(slots: Seq<Seq<u8>>) -> nat
    decreases slots.len(),
{
    if slots.len() == 0 {
        0
    } else {
        total_len(slots.drop_last()) + slots.last().len()
    }
}

/// Slot `i`, or an empty slot where there is none.
pub open spec fn slot_at(slots: Seq<Seq<u8>>, i: int) -> Seq<u8> {
    if 0 <= i < slots.len() {
        slots[i]
    } else {
        Seq::empty()
    }
}

/// The address of slot `i`: the sum of the lengths of the slots before it.
pub open spec fn address_of(slots: Seq<Seq<u8>>, i: nat) -> nat {
    total_len(slots.take(i as int))
}

/// Slot-wise concatenation: slot `i` of the result is slot `i` of `a` followed by slot
/// `i` of `b`, a missing slot counting as empty.
pub open spec fn merge_slots(a: Seq<Seq<u8>>, b: Seq<Seq<u8>>) -> Seq<Seq<u8>> {
    Seq::new(
        if a.len() >= b.len() {
            a.len()
        } else {
            b.len()
        },
        |i: int| slot_at(a, i) + slot_at(b, i),
    )
}

/// Addresses do not decrease with the slot position.
pub proof fn lemma_address_of_monotonic(slots: Seq<Seq<u8>>, i: nat, j: nat)
    requires
        i <= j <= slots.len(),
    ensures
        address_of(slots, i) <= address_of(slots, j),
    decreases j - i,
{
    if i < j {
        lemma_address_of_monotonic(slots, i, (j - 1) as nat);
        assert(slots.take(j as int).drop_last() =~= slots.take(j - 1));
    }
}

/// No slot is longer than all slots together, and no address is beyond their end.
pub proof fn lemma_within_total(slots: Seq<Seq<u8>>, k: int)
    ensures
        slot_at(slots, k).len() <= total_len(slots),
        0 <= k <= slots.len() ==> address_of(slots, k as nat) <= total_len(slots),
        0 <= k < slots.len() ==> address_of(slots, k as nat) + slots[k].len() <= total_len(slots),
    decreases slots.len(),
{
    if slots.len() > 0 {
        let prefix = slots.drop_last();
        lemma_within_total(prefix, k);
        assert(slots.take(slots.len() as int) =~= slots);
        if 0 <= k <= slots.len() {
            lemma_address_of_monotonic(slots, k as nat, slots.len());
        }
        if 0 <= k < slots.len() {
            lemma_address_of_monotonic(slots, (k + 1) as nat, slots.len());
            assert(slots.take(k + 1).drop_last() =~= slots.take(k));
        }
    }
}

/// Slots of the same lengths have the same addresses.
pub proof fn lemma_same_lengths_same_addresses(a: Seq<Seq<u8>>, b: Seq<Seq<u8>>, k: nat)
    requires
        a.len() == b.len(),
        forall|i: int| 0 <= i < a.len() ==> (#[trigger] a[i]).len() == b[i].len(),
        k <= a.len(),
    ensures
        address_of(a, k) == address_of(b, k),
    decreases k,
{
    if k > 0 {
        lemma_same_lengths_same_addresses(a, b, (k - 1) as nat);
        assert(a.take(k as int).drop_last() =~= a.take(k - 1));
        assert(b.take(k as int).drop_last() =~= b.take(k - 1));
        assert(a[k - 1].len() == b[k - 1].len());
    }
}

/// Index of a slot of an [`InMemoryLoadableSectionTable`]: its position.
#[derive(Debug, Copy, Clone, PartialEq, Eq)]
pub struct InMemorySectionIndex(usize);

impl SectionIndex for InMemorySectionIndex {

}

impl View for InMemorySectionIndex {
    type V = nat;

    closed spec fn view(&self) -> nat {
        self.0 as nat
    }
}

/// A section table that holds its slots in memory.
pub struct InMemoryLoadableSectionTable {
    sections: Vec<Vec<u8>>,
}

impl View for InMemoryLoadableSectionTable {
    type V = Seq<Seq<u8>>;

    closed spec fn view(&self) -> Seq<Seq<u8>> {
        self.sections@.map_values(|s: Vec<u8>| s@)
    }
}

impl LoadableSectionTable<InMemorySectionIndex> for InMemoryLoadableSectionTable {
    open spec fn slot_len(&self, index: InMemorySectionIndex) -> nat {
        slot_at(self@, index@ as int).len()
    }

    open spec fn has_address(&self, index: InMemorySectionIndex) -> bool {
        index@ <= self@.len() && address_of(self@, index@) <= usize::MAX
    }

    open spec fn slot_address(&self, index: InMemorySectionIndex) -> nat {
        address_of(self@, index@)
    }

    fn len(&self, index: InMemorySectionIndex) -> (r: usize) {
        if index.0 < self.sections.len() {
            self.sections[index.0].len()
        } else {
            0
        }
    }

    fn address(&self, index: InMemorySectionIndex) -> (r: usize) {
        let mut sum: usize = 0;
        for i in 0..index.0
            invariant
                index@ <= self@.len(),
                address_of(self@, index@) <= usize::MAX,
                sum == address_of(self@, i as nat),
        {
            proof {
                lemma_address_of_monotonic(self@, (i + 1) as nat, index@);
                assert(self@.take(i + 1).drop_last() =~= self@.take(i as int));
            }
            sum = sum + self.sections[i].len();
        }
        sum
    }
}

impl InMemoryLoadableSectionTable {
    pub fn new() -> (r: Self)
        ensures
            r@ == Seq::<Seq<u8>>::empty(),
    {
        let r = Self { sections: Vec::new() };
        assert(r@ =~= Seq::<Seq<u8>>::empty());
        r
    }

    /// Appends a slot holding `section`, and returns its index.
    pub fn add_section(&mut self, section: Vec<u8>) -> (r: InMemorySectionIndex)
        ensures
            final(self)@ == old(self)@.push(section@),
            r@ == old(self)@.len(),
    {
        let index = self.sections.len();
        self.sections.push(section);
        assert(self@ =~= old(self)@.push(section@));
        InMemorySectionIndex(index)
    }

    /// Appends slot `i` of `other` to slot `i` of this table, for every slot of `other`;
    /// slots that this table lacks are added.
    pub fn merge(&mut self, other: Self)
        ensures
            final(self)@ == merge_slots(old(self)@, other@),
    {
        let mut other = other;
        let ghost first = self@;
        let ghost second = other@;
        let n = other.sections.len();
        for i in 0..n
            invariant
                n == second.len(),
                other@.len() == n,
                forall|j: int| i <= j < n ==> #[trigger] other@[j] == second[j],
                self@ =~= merge_slots(first, second.take(i as int)),
        {
            if i >= self.sections.len() {
                self.sections.push(Vec::new());
                assert(self@ =~= merge_slots(first, second.take(i as int)).push(Seq::empty()));
            }
            let ghost before = self@;
            let ghost other_before = other@;
            let ghost sections_before = self.sections@;
            self.sections[i].append(&mut other.sections[i]);
            assert(other@ =~= other_before.update(i as int, Seq::empty()));
            assert(other_before[i as int] == second[i as int]);
            assert(self.sections@[i as int]@ == sections_before[i as int]@ + other_before[i as int]);
            assert(self@ =~= before.update(i as int, before[i as int] + second[i as int]));
            assert(self@ =~= merge_slots(first, second.take(i + 1)));
        }
        assert(second.take(n as int) =~= second);
    }

    /// The slots, in order.
    pub fn sections(&self) -> (r: &Vec<Vec<u8>>)
        ensures
            r@.map_values(|s: Vec<u8>| s@) == self@,
    {
        &self.sections
    }

    /// The bytes of slot `index`, to be changed in place.
    pub fn section_mut(&mut self, index: InMemorySectionIndex) -> (r: &mut Vec<u8>)
        requires
            index@ < old(self)@.len(),
        ensures
            r@ == old(self)@[index@ as int],
            final(self)@ == old(self)@.update(index@ as int, final(r)@),
    {
        &mut self.sections[index.0]
    }
}

/// The address of the first slot is zero, and the address of a slot is never below that
/// of an earlier slot.
pub proof fn lemma_address_monotonic(
    table: &InMemoryLoadableSectionTable,
    a: InMemorySectionIndex,
    b: InMemorySectionIndex,
)
    requires
        a@ <= b@ <= table@.len(),
    ensures
        a@ == 0 ==> table.slot_address(a) == 0,
        table.slot_address(a) <= table.slot_address(b),
{
    lemma_address_of_monotonic(table@, a@, b@);
    if a@ == 0 {
        assert(table@.take(0) =~= Seq::<Seq<u8>>::empty());
    }
}

} // verus!
