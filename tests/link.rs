use linker::{
    link, InMemoryLoadableSectionTable, InMemoryRelocatableObject, InMemorySectionIndex,
    LinkError, Relocation,
    RelocationError, RelocationType, ResolveError, Symbol, SymbolDefinition, SymbolTable,
    SymbolValue,
};

const ADDRESS_LEN: usize = 4;

fn main_o() -> InMemoryRelocatableObject<'static> {
    let mut section_table = InMemoryLoadableSectionTable::new();
    let mut symbol_table = SymbolTable::new();
    let mut references = Vec::new();

    // Add loadable sections
    let text_section = section_table.add_section(vec![
        0x48, 0x83, 0xec, 0x08, // sub rsp, 8
        0xbe, 0x02, 0x00, 0x00, 0x00, // mov esi, 2
        0xbf, 0x00, 0x00, 0x00, 0x00, // mov edi, array
        0xe8, 0x00, 0x00, 0x00, 0x00, // call sum
        0x48, 0x83, 0xc4, 0x08, // add rsp, 8
        0xc3, // ret
    ]);
    let data_section = section_table.add_section(vec![
        0x01, 0x00, 0x00, 0x00, // array: .int 1
        0x02, 0x00, 0x00, 0x00, // .int 2
    ]);

    // Add symbols
    let sum_symbol = symbol_table.add(Symbol {
        name: "sum",
        value: SymbolValue::Undefined,
    });
    let array_symbol = symbol_table.add(Symbol {
        name: "array",
        value: SymbolValue::Defined(SymbolDefinition {
            section: data_section,
            offset: 0,
            size: 8,
        }),
    });

    // Add references
    references.push(Relocation {
        offset: 0xf,
        symbol: sum_symbol,
        typ: RelocationType::PcRelative,
        addend: -4,
        section: text_section,
    });
    references.push(Relocation {
        offset: 0xa,
        symbol: array_symbol,
        typ: RelocationType::Absolute,
        addend: 0,
        section: text_section,
    });

    InMemoryRelocatableObject {
        section_table,
        symbol_table,
        references,
    }
}

fn sum_o() -> InMemoryRelocatableObject<'static> {
    let mut section_table = InMemoryLoadableSectionTable::new();
    let mut symbol_table = SymbolTable::new();
    let references = Vec::new();

    // Add loadable sections
    let text_section = section_table.add_section(vec![
        0xb8, 0x00, 0x00, 0x00, 0x00, // mov eax, 0
        0xba, 0x00, 0x00, 0x00, 0x00, // mov edx, 0
        0xeb, 0x09, // jmp +9
        0x48, 0x63, 0xca, // movsxd rcx, edx
        0x03, 0x04, 0x8f, // add eax, [rdi + rcx * 4]
        0x83, 0xc2, 0x01, // add edx, 1
        0x39, 0xf2, // cmp edx, esi
        0x7c, 0xf3, // jl -13
        0xf3, 0xc3, // rep ret
    ]);
    let _data_section = section_table.add_section(vec![]);

    // Add symbols
    let _sum_symbol = symbol_table.add(Symbol {
        name: "sum",
        value: SymbolValue::Defined(SymbolDefinition {
            section: text_section,
            offset: 0,
            size: 0,
        }),
    });

    InMemoryRelocatableObject {
        section_table,
        symbol_table,
        references,
    }
}

#[test]
fn main_sum_ok() {
    let objects = vec![main_o(), sum_o()];

    // Link
    let section_table = link(objects, ADDRESS_LEN).unwrap();

    // Check result
    assert_eq!(
        section_table.sections().iter().nth(0).unwrap(),
        &vec![
            // 0000000000000000 <main>
            0x48, 0x83, 0xec, 0x08, // sub rsp, 8
            0xbe, 0x02, 0x00, 0x00, 0x00, // mov esi, 2
            0xbf, 0x33, 0x00, 0x00, 0x00, // mov edi, array
            0xe8, 0x05, 0x00, 0x00, 0x00, // call +9 <sum>
            0x48, 0x83, 0xc4, 0x08, // add rsp, 8
            0xc3, // ret
            // 0000000000000018 <sum>
            0xb8, 0x00, 0x00, 0x00, 0x00, // mov eax, 0
            0xba, 0x00, 0x00, 0x00, 0x00, // mov edx, 0
            0xeb, 0x09, // jmp +9
            0x48, 0x63, 0xca, // movsxd rcx, edx
            0x03, 0x04, 0x8f, // add eax, [rdi + rcx * 4]
            0x83, 0xc2, 0x01, // add edx, 1
            0x39, 0xf2, // cmp edx, esi
            0x7c, 0xf3, // jl -13
            0xf3, 0xc3, // rep ret
        ]
    );
    assert_eq!(
        section_table.sections().iter().nth(1).unwrap(),
        &vec![
            // 0000000000000033 <array>
            0x01, 0x00, 0x00, 0x00, // array: .int 1
            0x02, 0x00, 0x00, 0x00, // .int 2
        ]
    );
}

#[test]
fn sum_main_ok() {
    let objects = vec![sum_o(), main_o()];

    // Link
    let section_table = link(objects, ADDRESS_LEN).unwrap();

    // Check result
    assert_eq!(
        section_table.sections().iter().nth(0).unwrap(),
        &vec![
            // 0000000000000000 <sum>
            0xb8, 0x00, 0x00, 0x00, 0x00, // mov eax, 0
            0xba, 0x00, 0x00, 0x00, 0x00, // mov edx, 0
            0xeb, 0x09, // jmp +9
            0x48, 0x63, 0xca, // movsxd rcx, edx
            0x03, 0x04, 0x8f, // add eax, [rdi + rcx * 4]
            0x83, 0xc2, 0x01, // add edx, 1
            0x39, 0xf2, // cmp edx, esi
            0x7c, 0xf3, // jl -13
            0xf3, 0xc3, // rep ret
            // 000000000000001b <main>
            0x48, 0x83, 0xec, 0x08, // sub rsp, 8
            0xbe, 0x02, 0x00, 0x00, 0x00, // mov esi, 2
            0xbf, 0x33, 0x00, 0x00, 0x00, // mov edi, array
            0xe8, 0xd2, 0xff, 0xff, 0xff, // call -2a <sum>
            0x48, 0x83, 0xc4, 0x08, // add rsp, 8
            0xc3, // ret
        ]
    );
    assert_eq!(
        section_table.sections().iter().nth(1).unwrap(),
        &vec![
            // 0000000000000033 <array>
            0x01, 0x00, 0x00, 0x00, // array: .int 1
            0x02, 0x00, 0x00, 0x00, // .int 2
        ]
    );
}

#[test]
fn empty_link_gives_empty_table() {
    let section_table = link(Vec::new(), ADDRESS_LEN).unwrap();
    assert!(section_table.sections().is_empty());
}

#[test]
fn conflicting_definitions_are_reported() {
    let result = link(vec![sum_o(), sum_o()], ADDRESS_LEN);
    assert_eq!(
        result.err(),
        Some(LinkError::ResolveError(ResolveError::ConflictSymbols {
            symbol: "sum".to_string()
        }))
    );
}

#[test]
fn unresolved_external_is_reported() {
    let result = link(vec![main_o()], ADDRESS_LEN);
    assert_eq!(
        result.err(),
        Some(LinkError::RelocationError(RelocationError::SymbolNotDefined))
    );
}

#[test]
fn stray_relocation_is_reported() {
    let mut section_table = InMemoryLoadableSectionTable::new();
    let text = section_table.add_section(vec![0; 8]);
    let mut elsewhere: SymbolTable<'static, InMemorySectionIndex> = SymbolTable::new();
    let _ = elsewhere.add(Symbol {
        name: "a",
        value: SymbolValue::Undefined,
    });
    let stray = elsewhere.add(Symbol {
        name: "b",
        value: SymbolValue::Undefined,
    });
    let relocation = Relocation {
        offset: 0,
        section: text,
        typ: RelocationType::Absolute,
        symbol: stray,
        addend: 0,
    };
    let object = InMemoryRelocatableObject {
        section_table,
        symbol_table: SymbolTable::new(),
        references: vec![relocation.clone()],
    };
    let result = link(vec![object], ADDRESS_LEN);
    assert_eq!(
        result.err(),
        Some(LinkError::ResolveError(ResolveError::InvalidRelocation {
            relocation
        }))
    );
}

#[test]
fn objects_without_relocations_merge_plainly() {
    let mut first = InMemoryLoadableSectionTable::new();
    first.add_section(vec![1, 2]);
    let mut second = InMemoryLoadableSectionTable::new();
    second.add_section(vec![3]);
    second.add_section(vec![4, 5]);
    let objects = vec![
        InMemoryRelocatableObject {
            section_table: first,
            symbol_table: SymbolTable::new(),
            references: Vec::new(),
        },
        InMemoryRelocatableObject {
            section_table: second,
            symbol_table: SymbolTable::new(),
            references: Vec::new(),
        },
    ];
    let section_table = link(objects, ADDRESS_LEN).unwrap();
    assert_eq!(section_table.sections(), &vec![vec![1, 2, 3], vec![4, 5]]);
}

/// One object whose slot 0 holds `bytes`, defining `target` at `target_offset` of slot 0,
/// with one relocation of kind `typ` at offset 0 to it.
fn self_reference(
    bytes: Vec<u8>,
    target_offset: usize,
    typ: RelocationType,
    addend: isize,
) -> InMemoryRelocatableObject<'static> {
    let mut section_table = InMemoryLoadableSectionTable::new();
    let text = section_table.add_section(bytes);
    let mut symbol_table = SymbolTable::new();
    let target = symbol_table.add(Symbol {
        name: "target",
        value: SymbolValue::Defined(SymbolDefinition {
            section: text,
            offset: target_offset,
            size: 0,
        }),
    });
    InMemoryRelocatableObject {
        section_table,
        symbol_table,
        references: vec![Relocation {
            offset: 0,
            section: text,
            typ,
            symbol: target,
            addend,
        }],
    }
}

#[test]
fn truncated_write_keeps_following_bytes() {
    let object = self_reference(vec![0xaa; 4], 0, RelocationType::Absolute, 0x1234_5678);
    let section_table = link(vec![object], 2).unwrap();
    assert_eq!(section_table.sections()[0], vec![0x78, 0x56, 0xaa, 0xaa]);
}

#[test]
fn absolute_value_is_symbol_address_plus_addend() {
    let object = self_reference(vec![0; 12], 8, RelocationType::Absolute, 3);
    let section_table = link(vec![object], 4).unwrap();
    assert_eq!(
        section_table.sections()[0],
        vec![11, 0, 0, 0, 0, 0, 0, 0, 0, 0, 0, 0]
    );
}

#[test]
fn pc_relative_value_wraps_below_zero() {
    let object = self_reference(vec![0; 8], 0, RelocationType::PcRelative, -4);
    let section_table = link(vec![object], 8).unwrap();
    let expected = (-4i64 as u64).to_le_bytes().to_vec();
    assert_eq!(section_table.sections()[0], expected);
}

#[test]
fn pc_relative_value_is_displacement_plus_addend() {
    let object = self_reference(vec![0; 16], 10, RelocationType::PcRelative, 2);
    let section_table = link(vec![object], 1).unwrap();
    assert_eq!(section_table.sections()[0][0], 12);
    assert_eq!(section_table.sections()[0][1..], vec![0; 15][..]);
}
