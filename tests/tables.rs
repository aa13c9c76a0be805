use linker::{
    relocate_reference, resolve_unloadable_sections, InMemoryLoadableSectionTable,
    InMemorySectionIndex, LoadableSectionTable, Relocation, RelocationType, ResolveError,
    ResolvingSymbolTable, Symbol, SymbolDefinition, SymbolTable, SymbolValue,
};

const ADDRESS_LEN: usize = 4;

fn main_o() -> (
    InMemoryLoadableSectionTable,
    SymbolTable<'static, InMemorySectionIndex>,
    Vec<Relocation<InMemorySectionIndex>>,
) {
    let mut section_table = InMemoryLoadableSectionTable::new();
    let mut symbol_table = SymbolTable::new();
    let mut references = Vec::new();

    // Add loadable sections
    let text_section = section_table.add_section(vec![
        0x48, 0x83, 0xec, 0x08, // sub rsp, 8
        0xbe, 0x02, 0x00, 0x00, 0x00, // mov esi, 2
        0xbf, 0x00, 0x00, 0x00, 0x00, // mov edi, array
        0xe8, 0x00, 0x00, 0x00, 0x00, // call sum
        0x48, 0x83, 0xc4, 0x08, // add rsp, 8
        0xc3, // ret
    ]);
    let data_section = section_table.add_section(vec![
        0x01, 0x00, 0x00, 0x00, // array: .int 1
        0x02, 0x00, 0x00, 0x00, // .int 2
    ]);

    // Add symbols
    let sum_symbol = symbol_table.add(Symbol {
        name: "sum",
        value: SymbolValue::Undefined,
    });
    let array_symbol = symbol_table.add(Symbol {
        name: "array",
        value: SymbolValue::Defined(SymbolDefinition {
            section: data_section,
            offset: 0,
            size: 8,
        }),
    });

    // Add references
    references.push(Relocation {
        offset: 0xf,
        symbol: sum_symbol,
        typ: RelocationType::PcRelative,
        addend: -4,
        section: text_section,
    });
    references.push(Relocation {
        offset: 0xa,
        symbol: array_symbol,
        typ: RelocationType::Absolute,
        addend: 0,
        section: text_section,
    });

    (section_table, symbol_table, references)
}

fn sum_o() -> (
    InMemoryLoadableSectionTable,
    SymbolTable<'static, InMemorySectionIndex>,
    Vec<Relocation<InMemorySectionIndex>>,
) {
    let mut section_table = InMemoryLoadableSectionTable::new();
    let mut symbol_table = SymbolTable::new();
    let references = Vec::new();

    // Add loadable sections
    let text_section = section_table.add_section(vec![
        0xb8, 0x00, 0x00, 0x00, 0x00, // mov eax, 0
        0xba, 0x00, 0x00, 0x00, 0x00, // mov edx, 0
        0xeb, 0x09, // jmp +9
        0x48, 0x63, 0xca, // movsxd rcx, edx
        0x03, 0x04, 0x8f, // add eax, [rdi + rcx * 4]
        0x83, 0xc2, 0x01, // add edx, 1
        0x39, 0xf2, // cmp edx, esi
        0x7c, 0xf3, // jl -13
        0xf3, 0xc3, // rep ret
    ]);
    let _data_section = section_table.add_section(vec![]);

    // Add symbols
    let _sum_symbol = symbol_table.add(Symbol {
        name: "sum",
        value: SymbolValue::Defined(SymbolDefinition {
            section: text_section,
            offset: 0,
            size: 0,
        }),
    });

    (section_table, symbol_table, references)
}

#[test]
fn ok() {
    let mut section_table = InMemoryLoadableSectionTable::new();
    let mut symbol_table = ResolvingSymbolTable::new();
    let mut references = Vec::new();

    // Resolve main.o
    {
        // Resolve unloadable sections
        let (other_section_table, other_symbol_table, other_references) = main_o();
        let res = resolve_unloadable_sections(
            &section_table,
            &mut symbol_table,
            other_symbol_table,
            &mut references,
            other_references,
        );
        assert!(res.is_ok());

        // Merge unloadable sections
        section_table.merge(other_section_table);
    }

    // Resolve sum.o
    {
        // Resolve unloadable sections
        let (other_section_table, other_symbol_table, other_references) = sum_o();
        let res = resolve_unloadable_sections(
            &section_table,
            &mut symbol_table,
            other_symbol_table,
            &mut references,
            other_references,
        );
        assert!(res.is_ok());

        // Merge unloadable sections
        section_table.merge(other_section_table);
    }

    // Relocate references
    for reference in references {
        let SymbolValue::Defined(_symbol_definition) = symbol_table.get(reference.symbol).value
        else {
            panic!("Symbol is not defined");
        };
        let new_reference_value =
            relocate_reference(&reference, &symbol_table, &section_table).unwrap();
        section_table.section_mut(reference.section)
            [reference.offset..reference.offset + ADDRESS_LEN]
            .copy_from_slice(&new_reference_value.to_le_bytes()[..ADDRESS_LEN]);
    }

    // Check result
    assert_eq!(
        section_table.sections().iter().nth(0).unwrap(),
        &vec![
            // 0000000000000000 <main>
            0x48, 0x83, 0xec, 0x08, // sub rsp, 8
            0xbe, 0x02, 0x00, 0x00, 0x00, // mov esi, 2
            0xbf, 0x33, 0x00, 0x00, 0x00, // mov edi, array
            0xe8, 0x05, 0x00, 0x00, 0x00, // call +9 <sum>
            0x48, 0x83, 0xc4, 0x08, // add rsp, 8
            0xc3, // ret
            // 0000000000000018 <sum>
            0xb8, 0x00, 0x00, 0x00, 0x00, // mov eax, 0
            0xba, 0x00, 0x00, 0x00, 0x00, // mov edx, 0
            0xeb, 0x09, // jmp +9
            0x48, 0x63, 0xca, // movsxd rcx, edx
            0x03, 0x04, 0x8f, // add eax, [rdi + rcx * 4]
            0x83, 0xc2, 0x01, // add edx, 1
            0x39, 0xf2, // cmp edx, esi
            0x7c, 0xf3, // jl -13
            0xf3, 0xc3, // rep ret
        ]
    );
    assert_eq!(
        section_table.sections().iter().nth(1).unwrap(),
        &vec![
            // 0000000000000033 <array>
            0x01, 0x00, 0x00, 0x00, // array: .int 1
            0x02, 0x00, 0x00, 0x00, // .int 2
        ]
    );
}

#[test]
fn merge_appends_slot_by_slot() {
    let mut table = InMemoryLoadableSectionTable::new();
    table.add_section(vec![1]);
    let mut other = InMemoryLoadableSectionTable::new();
    other.add_section(vec![2, 3]);
    other.add_section(vec![4]);
    other.add_section(vec![]);
    table.merge(other);
    assert_eq!(table.sections(), &vec![vec![1, 2, 3], vec![4], vec![]]);
}

#[test]
fn len_and_address_of_slots() {
    let mut table = InMemoryLoadableSectionTable::new();
    let first = table.add_section(vec![0; 3]);
    let second = table.add_section(vec![]);
    let third = table.add_section(vec![0; 5]);
    assert_eq!(table.len(first), 3);
    assert_eq!(table.len(second), 0);
    assert_eq!(table.address(first), 0);
    assert_eq!(table.address(second), 3);
    assert_eq!(table.address(third), 3);
    assert!(table.address(first) <= table.address(second));
    assert!(table.address(second) <= table.address(third));
}

#[test]
fn len_of_missing_slot_is_zero() {
    let mut big = InMemoryLoadableSectionTable::new();
    big.add_section(vec![7]);
    let missing = big.add_section(vec![8, 9]);
    let mut small = InMemoryLoadableSectionTable::new();
    small.add_section(vec![1, 2, 3]);
    assert_eq!(small.len(missing), 0);
    assert_eq!(big.len(missing), 2);
}

#[test]
fn section_mut_changes_one_slot() {
    let mut table = InMemoryLoadableSectionTable::new();
    let first = table.add_section(vec![1, 2]);
    table.add_section(vec![3]);
    table.section_mut(first)[1] = 9;
    assert_eq!(table.sections(), &vec![vec![1, 9], vec![3]]);
}

#[test]
fn symbol_table_adds_replaces_and_lists() {
    let mut sections = InMemoryLoadableSectionTable::new();
    let text = sections.add_section(vec![0; 4]);
    let mut table = SymbolTable::new();
    let a = table.add(Symbol {
        name: "a",
        value: SymbolValue::Undefined,
    });
    let b = table.add(Symbol {
        name: "b",
        value: SymbolValue::Undefined,
    });
    assert_eq!(table.len(), 2);
    let defined = Symbol {
        name: "b",
        value: SymbolValue::Defined(SymbolDefinition {
            section: text,
            offset: 2,
            size: 1,
        }),
    };
    table.replace(b, defined);
    assert_eq!(*table.get(b), defined);
    assert_eq!(table.get(a).name, "a");
    let entries = table.into_iter();
    assert_eq!(entries.len(), 2);
    assert_eq!(entries[0].0, a);
    assert_eq!(entries[1], (b, defined));
}

#[test]
fn resolving_table_finds_by_name() {
    let mut table: ResolvingSymbolTable<'static, InMemorySectionIndex> =
        ResolvingSymbolTable::new();
    let a = table.add(Symbol {
        name: "alpha",
        value: SymbolValue::Undefined,
    });
    let b = table.add(Symbol {
        name: "beta",
        value: SymbolValue::Undefined,
    });
    assert_eq!(table.get_index_by_name("alpha"), Some(a));
    assert_eq!(table.get_index_by_name("beta"), Some(b));
    assert_eq!(table.get_index_by_name("gamma"), None);
    assert_eq!(table.get_index_by_name("alph"), None);
    assert_eq!(table.get_by_name("beta").map(|s| s.name), Some("beta"));
    assert!(table.get_by_name("gamma").is_none());
    assert_eq!(table.get(a).name, "alpha");
    assert_eq!(table.len(), 2);
}

#[test]
fn resolving_table_replace_moves_the_name() {
    let mut table: ResolvingSymbolTable<'static, InMemorySectionIndex> =
        ResolvingSymbolTable::new();
    let a = table.add(Symbol {
        name: "old",
        value: SymbolValue::Undefined,
    });
    table.replace(
        a,
        Symbol {
            name: "new",
            value: SymbolValue::Undefined,
        },
    );
    assert_eq!(table.get_index_by_name("old"), None);
    assert_eq!(table.get_index_by_name("new"), Some(a));
}

fn defining(
    name: &'static str,
    offset: usize,
    slot_len: usize,
) -> (
    InMemoryLoadableSectionTable,
    SymbolTable<'static, InMemorySectionIndex>,
    Vec<Relocation<InMemorySectionIndex>>,
) {
    let mut sections = InMemoryLoadableSectionTable::new();
    let text = sections.add_section(vec![0; slot_len]);
    let mut symbols = SymbolTable::new();
    symbols.add(Symbol {
        name,
        value: SymbolValue::Defined(SymbolDefinition {
            section: text,
            offset,
            size: 1,
        }),
    });
    (sections, symbols, Vec::new())
}

fn referencing(
    name: &'static str,
) -> (
    InMemoryLoadableSectionTable,
    SymbolTable<'static, InMemorySectionIndex>,
    Vec<Relocation<InMemorySectionIndex>>,
) {
    let mut symbols = SymbolTable::new();
    symbols.add(Symbol {
        name,
        value: SymbolValue::Undefined,
    });
    (InMemoryLoadableSectionTable::new(), symbols, Vec::new())
}

/// Resolves the given objects in order and returns the value of `name` in the resolving
/// table.
fn resolved_value(
    objects: Vec<(
        InMemoryLoadableSectionTable,
        SymbolTable<'static, InMemorySectionIndex>,
        Vec<Relocation<InMemorySectionIndex>>,
    )>,
    name: &str,
) -> SymbolValue<InMemorySectionIndex> {
    let mut sections = InMemoryLoadableSectionTable::new();
    let mut symbols = ResolvingSymbolTable::new();
    let mut references = Vec::new();
    for (other_sections, other_symbols, other_references) in objects {
        resolve_unloadable_sections(
            &sections,
            &mut symbols,
            other_symbols,
            &mut references,
            other_references,
        )
        .unwrap();
        sections.merge(other_sections);
    }
    symbols.get_by_name(name).unwrap().value
}

#[test]
fn definition_meets_reference_in_either_order() {
    let first = resolved_value(vec![defining("f", 2, 4), referencing("f")], "f");
    let second = resolved_value(vec![referencing("f"), defining("f", 2, 4)], "f");
    assert_eq!(first, second);
    match first {
        SymbolValue::Defined(d) => assert_eq!(d.offset, 2),
        SymbolValue::Undefined => panic!("f should be defined"),
    }
}

#[test]
fn definition_offset_moves_past_earlier_bytes() {
    let value = resolved_value(vec![defining("g", 0, 5), defining("h", 3, 4)], "h");
    match value {
        SymbolValue::Defined(d) => assert_eq!(d.offset, 8),
        SymbolValue::Undefined => panic!("h should be defined"),
    }
}

#[test]
fn single_object_resolves() {
    let (_, other_symbols, _) = main_o();
    let (sections, _, other_references) = main_o();
    let mut symbols = ResolvingSymbolTable::new();
    let mut references = Vec::new();
    let res = resolve_unloadable_sections(
        &sections,
        &mut symbols,
        other_symbols,
        &mut references,
        other_references,
    );
    assert!(res.is_ok());
    assert_eq!(references.len(), 2);
    assert_eq!(references[0].offset, 24 + 0xf);
    assert_eq!(references[1].offset, 24 + 0xa);
    assert_eq!(symbols.len(), 2);
}

#[test]
fn second_definition_conflicts() {
    let mut sections = InMemoryLoadableSectionTable::new();
    let mut symbols = ResolvingSymbolTable::new();
    let mut references = Vec::new();
    let (first_sections, first_symbols, first_references) = defining("dup", 0, 1);
    resolve_unloadable_sections(
        &sections,
        &mut symbols,
        first_symbols,
        &mut references,
        first_references,
    )
    .unwrap();
    sections.merge(first_sections);
    let (_, second_symbols, second_references) = defining("dup", 0, 1);
    let res = resolve_unloadable_sections(
        &sections,
        &mut symbols,
        second_symbols,
        &mut references,
        second_references,
    );
    assert_eq!(
        res,
        Err(ResolveError::ConflictSymbols {
            symbol: "dup".to_string()
        })
    );
}
