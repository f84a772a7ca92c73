use dsarm::module::{Module, ModuleKind, Section, SectionKind};
use dsarm::program::{
    AnalysisError, ExternalModules, ExternalSymbol, Program, RelocationResult, SymbolCandidate,
};
use dsarm::relocation::{Relocation, RelocationModule};
use dsarm::symbol::{SymbolMaps, SymbolRole};

fn data_module(kind: ModuleKind, prefix: &str) -> Module {
    Module::new(kind, vec![Section { kind: SectionKind::Data }], String::from(prefix))
}

fn empty_result() -> RelocationResult {
    RelocationResult { relocations: vec![], external_symbols: vec![] }
}

#[test]
fn single_data_candidate_installs_concrete_symbol() {
    let main = data_module(ModuleKind::Arm9, "data_");
    let mut p = Program::new(main, vec![], vec![], SymbolMaps::new());
    let results = vec![RelocationResult {
        relocations: vec![],
        external_symbols: vec![ExternalSymbol {
            address: 0x02000040,
            candidates: vec![SymbolCandidate { module_index: 0, section_index: 0 }],
        }],
    }];
    p.analyze_cross_references(results).unwrap();
    let map = p.symbol_maps().map(ModuleKind::Arm9).unwrap();
    let symbols = map.symbols();
    assert_eq!(symbols.len(), 1);
    assert_eq!(symbols[0].address, 0x02000040);
    assert_eq!(symbols[0].name, "data_02000040");
    assert!(matches!(symbols[0].kind, SymbolRole::Data(_)));
}

#[test]
fn two_overlay_candidates_install_ambiguous_symbols() {
    let main = data_module(ModuleKind::Arm9, "data_");
    let ov1 = data_module(ModuleKind::Overlay(1), "ov1_");
    let ov2 = data_module(ModuleKind::Overlay(2), "ov2_");
    let mut p = Program::new(main, vec![ov1, ov2], vec![], SymbolMaps::new());
    let results = vec![
        RelocationResult {
            relocations: vec![],
            external_symbols: vec![ExternalSymbol {
                address: 0x02100000,
                candidates: vec![
                    SymbolCandidate { module_index: 1, section_index: 0 },
                    SymbolCandidate { module_index: 2, section_index: 0 },
                ],
            }],
        },
        empty_result(),
        empty_result(),
    ];
    p.analyze_cross_references(results).unwrap();
    let m1 = p.symbol_maps().map(ModuleKind::Overlay(1)).unwrap();
    assert_eq!(m1.symbols().len(), 1);
    assert_eq!(m1.symbols()[0].name, "ov1_02100000");
    assert!(matches!(m1.symbols()[0].kind, SymbolRole::AmbiguousData(_)));
    let m2 = p.symbol_maps().map(ModuleKind::Overlay(2)).unwrap();
    assert_eq!(m2.symbols().len(), 1);
    assert_eq!(m2.symbols()[0].name, "ov2_02100000");
    assert!(matches!(m2.symbols()[0].kind, SymbolRole::AmbiguousData(_)));
}

#[test]
fn bss_candidate_installs_bss_symbol() {
    let main = Module::new(
        ModuleKind::Arm9,
        vec![Section { kind: SectionKind::Bss }],
        String::from("bss_"),
    );
    let mut p = Program::new(main, vec![], vec![], SymbolMaps::new());
    let results = vec![RelocationResult {
        relocations: vec![],
        external_symbols: vec![ExternalSymbol {
            address: 0x02200000,
            candidates: vec![SymbolCandidate { module_index: 0, section_index: 0 }],
        }],
    }];
    p.analyze_cross_references(results).unwrap();
    let map = p.symbol_maps().map(ModuleKind::Arm9).unwrap();
    assert!(matches!(map.symbols()[0].kind, SymbolRole::Bss(_)));
}

#[test]
fn code_candidate_installs_nothing() {
    let main = Module::new(
        ModuleKind::Arm9,
        vec![Section { kind: SectionKind::Code }],
        String::from("data_"),
    );
    let mut p = Program::new(main, vec![], vec![], SymbolMaps::new());
    let results = vec![RelocationResult {
        relocations: vec![],
        external_symbols: vec![ExternalSymbol {
            address: 0x02000040,
            candidates: vec![SymbolCandidate { module_index: 0, section_index: 0 }],
        }],
    }];
    p.analyze_cross_references(results).unwrap();
    assert!(p.symbol_maps().map(ModuleKind::Arm9).is_none());
}

#[test]
fn zero_candidates_is_an_invariant_violation() {
    let main = data_module(ModuleKind::Arm9, "data_");
    let mut p = Program::new(main, vec![], vec![], SymbolMaps::new());
    let results = vec![RelocationResult {
        relocations: vec![],
        external_symbols: vec![ExternalSymbol { address: 0x02000040, candidates: vec![] }],
    }];
    assert_eq!(
        p.analyze_cross_references(results),
        Err(AnalysisError::NoCandidates { address: 0x02000040 })
    );
}

#[test]
fn reported_relocations_go_into_module_tables() {
    let main = data_module(ModuleKind::Arm9, "data_");
    let mut p = Program::new(main, vec![], vec![], SymbolMaps::new());
    let results = vec![RelocationResult {
        relocations: vec![
            Relocation::new_call(0x02000000, 0x02000100, RelocationModule::Main, true, true),
        ],
        external_symbols: vec![],
    }];
    p.analyze_cross_references(results).unwrap();
    assert_eq!(p.module(0).relocations().iter().len(), 1);
    assert_eq!(p.module(0).relocations().get(0x02000000).unwrap().to_address(), 0x02000100);
}

#[test]
fn colliding_reported_relocations_stop_the_analysis() {
    let main = data_module(ModuleKind::Arm9, "data_");
    let mut p = Program::new(main, vec![], vec![], SymbolMaps::new());
    let results = vec![RelocationResult {
        relocations: vec![
            Relocation::new_load(0x02000000, 0x1, RelocationModule::Main),
            Relocation::new_load(0x02000000, 0x2, RelocationModule::Main),
        ],
        external_symbols: vec![],
    }];
    assert!(p.analyze_cross_references(results).is_err());
}

#[test]
fn program_layout_partitions_modules() {
    let main = data_module(ModuleKind::Arm9, "m_");
    let ov = data_module(ModuleKind::Overlay(0), "o_");
    let auto = data_module(ModuleKind::Autoload(dsarm::module::AutoloadKind::Itcm), "a_");
    let p = Program::new(main, vec![ov], vec![auto], SymbolMaps::new());
    assert_eq!(p.num_modules(), 3);
    assert_eq!(p.main().kind(), ModuleKind::Arm9);
    assert_eq!(p.overlays().len(), 1);
    assert_eq!(p.overlays()[0].kind(), ModuleKind::Overlay(0));
    assert_eq!(p.autoloads().len(), 1);
    assert_eq!(p.module(2).kind(), ModuleKind::Autoload(dsarm::module::AutoloadKind::Itcm));
}

#[test]
fn external_modules_present_the_other_modules() {
    let a = data_module(ModuleKind::Arm9, "a_");
    let b = data_module(ModuleKind::Overlay(1), "b_");
    let c = data_module(ModuleKind::Overlay(2), "c_");
    let all = vec![a, b, c];
    let ext = ExternalModules::new(&all[..1], &all[2..]);
    assert_eq!(ext.len(), 2);
    assert_eq!(ext.get(0).kind(), ModuleKind::Arm9);
    assert_eq!(ext.get(1).kind(), ModuleKind::Overlay(2));
    let listed: Vec<ModuleKind> = ext.iter().iter().map(|m| m.kind()).collect();
    assert_eq!(listed, vec![ModuleKind::Arm9, ModuleKind::Overlay(2)]);
}

#[test]
fn out_of_range_candidate_is_reported() {
    let main = data_module(ModuleKind::Arm9, "data_");
    let mut p = Program::new(main, vec![], vec![], SymbolMaps::new());
    let results = vec![RelocationResult {
        relocations: vec![],
        external_symbols: vec![ExternalSymbol {
            address: 0x02000040,
            candidates: vec![SymbolCandidate { module_index: 9, section_index: 0 }],
        }],
    }];
    assert_eq!(
        p.analyze_cross_references(results),
        Err(AnalysisError::CandidateOutOfRange { address: 0x02000040 })
    );
}

#[test]
fn code_candidate_among_several_installs_nothing_for_it() {
    let main = data_module(ModuleKind::Arm9, "data_");
    let code_ov = Module::new(
        ModuleKind::Overlay(1),
        vec![Section { kind: SectionKind::Code }],
        String::from("ov1_"),
    );
    let data_ov = data_module(ModuleKind::Overlay(2), "ov2_");
    let mut p = Program::new(main, vec![code_ov, data_ov], vec![], SymbolMaps::new());
    let results = vec![
        RelocationResult {
            relocations: vec![],
            external_symbols: vec![ExternalSymbol {
                address: 0x02100010,
                candidates: vec![
                    SymbolCandidate { module_index: 1, section_index: 0 },
                    SymbolCandidate { module_index: 2, section_index: 0 },
                ],
            }],
        },
        empty_result(),
        empty_result(),
    ];
    p.analyze_cross_references(results).unwrap();
    assert!(p.symbol_maps().map(ModuleKind::Overlay(1)).is_none());
    let m2 = p.symbol_maps().map(ModuleKind::Overlay(2)).unwrap();
    assert_eq!(m2.symbols().len(), 1);
    assert!(matches!(m2.symbols()[0].kind, SymbolRole::AmbiguousData(_)));
}
