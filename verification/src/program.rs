//! The program aggregator: the main module, overlays and autoloads in one
//! vector, per-module symbol maps, and the resolution of cross-references
//! reported by the data analyzer into relocations and symbols.

use vstd::prelude::*;
use crate::module::{Module, ModuleKind, SectionKind};
use crate::relocation::{extend_table, Relocation, RelocationError};
use crate::symbol::{has_symbol_at, SymBss, SymData, Symbol, SymbolMaps, SymbolRole};
use crate::text::hex8;
use crate::functions::default_function_name;

verus! {

/// One candidate module and section for a cross-referenced address.
#[derive(Clone, Copy, Debug, PartialEq, Eq, Structural)]
pub struct SymbolCandidate {
    pub module_index: usize,
    pub section_index: usize,
}

/// A cross-referenced address with every module it may lie in.
pub struct ExternalSymbol {
    pub address: u32,
    pub candidates: Vec<SymbolCandidate>,
}

/// What the data analyzer reports for one module.
pub struct RelocationResult {
    pub relocations: Vec<Relocation>,
    pub external_symbols: Vec<ExternalSymbol>,
}

/// What can go wrong while resolving cross-references.
#[derive(Clone, Copy, Debug, PartialEq, Eq, Structural)]
pub enum AnalysisError {
    /// A cross-reference with no candidate at all: an upstream bug.
    NoCandidates { address: u32 },
    /// A candidate names a module or section that does not exist.
    CandidateOutOfRange { address: u32 },
    /// Two different relocations claim one source address.
    Table(RelocationError),
}

/// Every candidate of a cross-referenced symbol names an existing module
/// and section, and there is at least one candidate.
pub open spec fn candidates_ok(modules: Seq<Module>, cands: Seq<SymbolCandidate>) -> bool {
    &&& cands.len() >= 1
    &&& forall|k: int|
        0 <= k < cands.len() ==> (#[trigger] cands[k]).module_index < modules.len() && cands[
            k].section_index < modules[cands[k].module_index as int].sections@.len()
}

/// Every cross-referenced symbol of an analyzer result is in order.
pub open spec fn symbols_ok(modules: Seq<Module>, syms: Seq<ExternalSymbol>) -> bool {
    forall|j: int|
        0 <= j < syms.len() ==> candidates_ok(modules, (#[trigger] syms[j]).candidates@)
}

/// The whole analysis succeeds: every module's reported relocations add
/// without collision, and every cross-referenced symbol is in order.
pub open spec fn analysis_ok(modules: Seq<Module>, results: Seq<RelocationResult>) -> bool {
    forall|i: int|
        0 <= i < results.len() ==> extend_table(
            modules[i].relocations@,
            (#[trigger] results[i]).relocations.deep_view(),
        ).1 && symbols_ok(modules, results[i].external_symbols@)
}

/// The symbol that candidate `k` of a cross-reference installs into the
/// map of module kind `mk`: at the symbol's address, named by the
/// candidate module's prefix and the address, concrete when the candidate
/// is alone, ambiguous otherwise, data or bss by the section.
pub open spec fn installed_symbol(
    modules: Seq<Module>,
    sym: ExternalSymbol,
    mk: ModuleKind,
    k: int,
    s: Symbol,
) -> bool {
    &&& 0 <= k < sym.candidates@.len()
    &&& {
        let c = sym.candidates@[k];
        &&& c.module_index < modules.len()
        &&& c.section_index < modules[c.module_index as int].sections@.len()
        &&& modules[c.module_index as int].kind == mk
        &&& s.address == sym.address
        &&& s.name@ == modules[c.module_index as int].default_data_prefix@ + hex8(sym.address)
        &&& {
            let sect = modules[c.module_index as int].sections@[c.section_index as int].kind;
            if sym.candidates@.len() == 1 {
                ||| (sect is Data && s.kind == SymbolRole::Data(SymData::Any))
                ||| (sect is Bss && s.kind == SymbolRole::Bss(SymBss { size: None }))
            } else {
                ||| (sect is Data && s.kind == SymbolRole::AmbiguousData(SymData::Any))
                ||| (sect is Bss && s.kind == SymbolRole::AmbiguousBss(SymBss { size: None }))
            }
        }
    }
}

/// Some candidate of the cross-reference installs this symbol into the
/// map of module kind `mk`.
pub open spec fn gained_from_symbol(
    modules: Seq<Module>,
    sym: ExternalSymbol,
    mk: ModuleKind,
    s: Symbol,
) -> bool {
    exists|k: int| installed_symbol(modules, sym, mk, k, s)
}

/// Some candidate of some reported cross-reference installs this symbol
/// into the map of module kind `mk`.
pub open spec fn gained_from_results(
    modules: Seq<Module>,
    results: Seq<RelocationResult>,
    mk: ModuleKind,
    s: Symbol,
) -> bool {
    exists|i: int, j: int|
        0 <= i < results.len() && 0 <= j < results[i].external_symbols@.len()
            && gained_from_symbol(modules, #[trigger] results[i].external_symbols@[j], mk, s)
}

/// A program: modules laid out as `[main][overlays...][autoloads...]`,
/// and the symbol maps of all modules.
pub struct Program {
    modules: Vec<Module>,
    symbol_maps: SymbolMaps,
    main: usize,
    overlays_start: usize,
    overlays_end: usize,
    autoloads_start: usize,
    autoloads_end: usize,
}

impl Program {
    /// The modules.
    pub closed spec fn modules_seq(&self) -> Seq<Module> {
        self.modules@
    }

    /// The symbol maps.
    pub closed spec fn symbol_maps_spec(&self) -> SymbolMaps {
        self.symbol_maps
    }

    /// The bounds of the overlay range.
    pub closed spec fn overlays_range(&self) -> (int, int) {
        (self.overlays_start as int, self.overlays_end as int)
    }

    /// The bounds of the autoload range.
    pub closed spec fn autoloads_range(&self) -> (int, int) {
        (self.autoloads_start as int, self.autoloads_end as int)
    }

    /// The module layout is three contiguous slices, and every relocation
    /// table is ordered.
    pub open spec fn wf(&self) -> bool {
        &&& self.modules_seq().len() >= 1
        &&& self.overlays_range().0 == 1
        &&& self.overlays_range().1 == self.autoloads_range().0
        &&& self.autoloads_range().1 == self.modules_seq().len()
        &&& 1 <= self.overlays_range().1 <= self.modules_seq().len()
        &&& forall|i: int|
            0 <= i < self.modules_seq().len() ==> (
            #[trigger] self.modules_seq()[i]).relocations.wf()
    }

    /// A program from its parts, in layout order.
    pub fn new(main: Module, overlays: Vec<Module>, autoloads: Vec<Module>, symbol_maps:
        SymbolMaps) -> (r: Program)
        requires
            main.relocations.wf(),
            forall|i: int| 0 <= i < overlays@.len() ==> (#[trigger] overlays@[i]).relocations.wf(),
            forall|i: int|
                0 <= i < autoloads@.len() ==> (#[trigger] autoloads@[i]).relocations.wf(),
        ensures
            r.wf(),
            r.modules_seq() == seq![main] + overlays@ + autoloads@,
            r.overlays_range() == (1int, 1 + overlays@.len() as int),
            r.autoloads_range() == (
                1 + overlays@.len() as int,
                1 + overlays@.len() + autoloads@.len() as int,
            ),
            r.symbol_maps_spec() == symbol_maps,
    {
        let ghost o_view = overlays@;
        let ghost a_view = autoloads@;
        let ghost main_v = main;
        let mut modules: Vec<Module> = Vec::new();
        modules.push(main);
        let mut overlays = overlays;
        let mut autoloads = autoloads;
        modules.append(&mut overlays);
        let overlays_end = modules.len();
        modules.append(&mut autoloads);
        let autoloads_end = modules.len();
        proof {
            assert(modules@ =~= seq![main_v] + o_view + a_view);
        }
        let r = Program {
            modules,
            symbol_maps,
            main: 0,
            overlays_start: 1,
            overlays_end,
            autoloads_start: overlays_end,
            autoloads_end,
        };
        proof {
            assert(r.modules_seq() == seq![main_v] + o_view + a_view);
            assert forall|i: int|
                0 <= i < r.modules_seq().len() implies (
            #[trigger] r.modules_seq()[i]).relocations.wf() by {
                if i == 0 {
                    assert(r.modules_seq()[i] == main_v);
                } else if i < 1 + o_view.len() {
                    assert(r.modules_seq()[i] == o_view[i - 1]);
                } else {
                    assert(r.modules_seq()[i] == a_view[i - 1 - o_view.len()]);
                }
            }
        }
        r
    }

    /// Every non-Code candidate of a symbol has landed in its module's
    /// map at the symbol's address.
    pub open spec fn symbol_resolved(modules: Seq<Module>, maps: SymbolMaps, sym: ExternalSymbol)
        -> bool {
        forall|k: int|
            0 <= k < sym.candidates@.len() ==> {
                let c = #[trigger] sym.candidates@[k];
                c.module_index < modules.len() && c.section_index < modules[
                    c.module_index as int].sections@.len() && !(modules[
                    c.module_index as int].sections@[c.section_index as int].kind is Code)
                    ==> has_symbol_at(
                    maps.map_of(modules[c.module_index as int].kind),
                    sym.address,
                )
            }
    }

    /// Resolution already recorded stays recorded while the maps only
    /// grow.
    proof fn lemma_resolved_persists(
        modules: Seq<Module>,
        a: SymbolMaps,
        b: SymbolMaps,
        sym: ExternalSymbol,
    )
        requires
            Self::symbol_resolved(modules, a, sym),
            forall|mk: ModuleKind| b.map_of(mk).len() >= (#[trigger] a.map_of(mk)).len(),
            forall|mk: ModuleKind, t: int|
                0 <= t < a.map_of(mk).len() ==> (#[trigger] b.map_of(mk)[t]) == a.map_of(mk)[t],
        ensures
            Self::symbol_resolved(modules, b, sym),
    {
        assert forall|k: int|
            0 <= k < sym.candidates@.len() implies {
            let c = #[trigger] sym.candidates@[k];
            c.module_index < modules.len() && c.section_index < modules[
                c.module_index as int].sections@.len() && !(modules[
                c.module_index as int].sections@[c.section_index as int].kind is Code)
                ==> has_symbol_at(b.map_of(modules[c.module_index as int].kind), sym.address)
        } by {
            let c = sym.candidates@[k];
            if c.module_index < modules.len() && c.section_index < modules[
                c.module_index as int].sections@.len() && !(modules[
                c.module_index as int].sections@[c.section_index as int].kind is Code) {
                let mk = modules[c.module_index as int].kind;
                let t = choose|t: int|
                    0 <= t < a.map_of(mk).len() && (#[trigger] a.map_of(mk)[t]).address
                        == sym.address;
                assert(b.map_of(mk)[t] == a.map_of(mk)[t]);
            }
        }
    }

    /// Resolve one cross-referenced symbol by its candidates: a lone Data
    /// or Bss candidate gets a concrete symbol in its module's map,
    /// several candidates get one ambiguous symbol each, Code candidates
    /// get none. No candidate at all, or one naming a module or section
    /// that does not exist, is an error, and an error changes no map.
    fn resolve_symbol(&mut self, symbol: &ExternalSymbol) -> (res: Result<(), AnalysisError>)
        ensures
            final(self).modules_seq() == old(self).modules_seq(),
            final(self).overlays_range() == old(self).overlays_range(),
            final(self).autoloads_range() == old(self).autoloads_range(),
            res is Ok <==> candidates_ok(old(self).modules_seq(), symbol.candidates@),
            forall|mk: ModuleKind|
                (#[trigger] final(self).symbol_maps_spec().map_of(mk)).len() >= old(self).symbol_maps_spec().map_of(mk).len(),
            forall|mk: ModuleKind, t: int|
                0 <= t < old(self).symbol_maps_spec().map_of(mk).len() ==> (#[trigger] final(self).symbol_maps_spec().map_of(mk)[t]) == old(self).symbol_maps_spec().map_of(mk)[t],
            forall|mk: ModuleKind, t: int|
                old(self).symbol_maps_spec().map_of(mk).len() <= t < final(self).symbol_maps_spec().map_of(mk).len() ==> gained_from_symbol(
                    old(self).modules_seq(),
                    *symbol,
                    mk,
                    #[trigger] final(self).symbol_maps_spec().map_of(mk)[t],
                ),
            res is Ok ==> Self::symbol_resolved(
                old(self).modules_seq(),
                final(self).symbol_maps_spec(),
                *symbol,
            ),
    {
        let ghost modules0 = self.modules_seq();
        let ghost maps0 = self.symbol_maps;
        let num_candidates = symbol.candidates.len();
        if num_candidates == 0 {
            return Err(AnalysisError::NoCandidates { address: symbol.address });
        }
        if num_candidates == 1 {
            let c = symbol.candidates[0];
            if c.module_index >= self.modules.len() || c.section_index >= self.modules[
                c.module_index].sections.len() {
                proof {
                    assert(!candidates_ok(modules0, symbol.candidates@)) by {
                        assert(symbol.candidates@[0] == c);
                    }
                }
                return Err(AnalysisError::CandidateOutOfRange { address: symbol.address });
            }
            let section_kind = self.modules[c.module_index].sections[c.section_index].kind;
            let module_kind = self.modules[c.module_index].kind;
            let name = default_function_name(
                self.modules[c.module_index].default_data_prefix.as_str(),
                symbol.address,
            );
            let ghost name_view = name@;
            match section_kind {
                SectionKind::Code => {},
                SectionKind::Data => {
                    self.symbol_maps.add_data(module_kind, name, symbol.address, SymData::Any);
                },
                SectionKind::Bss => {
                    self.symbol_maps.add_bss(
                        module_kind,
                        name,
                        symbol.address,
                        SymBss { size: None },
                    );
                },
            }
            proof {
                assert(candidates_ok(modules0, symbol.candidates@)) by {
                    assert forall|k: int|
                        0 <= k < symbol.candidates@.len() implies (
                    #[trigger] symbol.candidates@[k]).module_index < modules0.len()
                        && symbol.candidates@[k].section_index < modules0[symbol.candidates@[
                        k].module_index as int].sections@.len() by {
                        assert(symbol.candidates@[k] == c);
                    }
                }
                assert forall|mk: ModuleKind, t: int|
                    maps0.map_of(mk).len() <= t < self.symbol_maps.map_of(mk).len()
                    implies gained_from_symbol(
                    modules0,
                    *symbol,
                    mk,
                    #[trigger] self.symbol_maps.map_of(mk)[t],
                ) by {
                    assert(installed_symbol(
                        modules0,
                        *symbol,
                        mk,
                        0,
                        self.symbol_maps.map_of(mk)[t],
                    ));
                }
                assert forall|k: int|
                    0 <= k < symbol.candidates@.len() implies {
                    let cc = #[trigger] symbol.candidates@[k];
                    cc.module_index < modules0.len() && cc.section_index < modules0[
                        cc.module_index as int].sections@.len() && !(modules0[
                        cc.module_index as int].sections@[cc.section_index as int].kind
                        is Code) ==> has_symbol_at(
                        self.symbol_maps.map_of(modules0[cc.module_index as int].kind),
                        symbol.address,
                    )
                } by {
                    assert(symbol.candidates@[k] == c);
                }
            }
            Ok(())
        } else {
            let mut k: usize = 0;
            while k < num_candidates
                invariant
                    0 <= k <= num_candidates == symbol.candidates@.len(),
                    num_candidates >= 2,
                    modules0 == self.modules_seq(),
                    self.overlays_range() == old(self).overlays_range(),
                    self.autoloads_range() == old(self).autoloads_range(),
                    modules0 == old(self).modules_seq(),
                    maps0 == old(self).symbol_maps_spec(),
                    forall|kk: int|
                        0 <= kk < k ==> (#[trigger] symbol.candidates@[kk]).module_index
                            < modules0.len() && symbol.candidates@[kk].section_index < modules0[
                            symbol.candidates@[kk].module_index as int].sections@.len(),
                    forall|mk: ModuleKind|
                        self.symbol_maps.map_of(mk).len() >= (#[trigger] maps0.map_of(mk)).len(),
                    forall|mk: ModuleKind, t: int|
                        0 <= t < maps0.map_of(mk).len() ==> (
                        #[trigger] self.symbol_maps.map_of(mk)[t]) == maps0.map_of(mk)[t],
                    forall|mk: ModuleKind, t: int|
                        maps0.map_of(mk).len() <= t < self.symbol_maps.map_of(mk).len()
                            ==> gained_from_symbol(
                            modules0,
                            *symbol,
                            mk,
                            #[trigger] self.symbol_maps.map_of(mk)[t],
                        ),
                    forall|kk: int|
                        0 <= kk < k ==> {
                            let cc = #[trigger] symbol.candidates@[kk];
                            !(modules0[cc.module_index as int].sections@[
                                cc.section_index as int].kind is Code) ==> has_symbol_at(
                                self.symbol_maps.map_of(
                                    modules0[cc.module_index as int].kind,
                                ),
                                symbol.address,
                            )
                        },
                decreases num_candidates - k,
            {
                let c = symbol.candidates[k];
                if c.module_index >= self.modules.len() || c.section_index >= self.modules[
                    c.module_index].sections.len() {
                    proof {
                        assert(!candidates_ok(modules0, symbol.candidates@)) by {
                            assert(symbol.candidates@[k as int] == c);
                        }
                    }
                    return Err(AnalysisError::CandidateOutOfRange { address: symbol.address });
                }
                let section_kind = self.modules[c.module_index].sections[c.section_index].kind;
                let module_kind = self.modules[c.module_index].kind;
                let name = default_function_name(
                    self.modules[c.module_index].default_data_prefix.as_str(),
                    symbol.address,
                );
                let ghost maps_before = self.symbol_maps;
                match section_kind {
                    SectionKind::Code => {},
                    SectionKind::Data => {
                        self.symbol_maps.add_ambiguous_data(
                            module_kind,
                            name,
                            symbol.address,
                            SymData::Any,
                        );
                    },
                    SectionKind::Bss => {
                        self.symbol_maps.add_ambiguous_bss(
                            module_kind,
                            name,
                            symbol.address,
                            SymBss { size: None },
                        );
                    },
                }
                proof {
                    assert forall|mk: ModuleKind, t: int|
                        maps0.map_of(mk).len() <= t < self.symbol_maps.map_of(mk).len()
                        implies gained_from_symbol(
                        modules0,
                        *symbol,
                        mk,
                        #[trigger] self.symbol_maps.map_of(mk)[t],
                    ) by {
                        if t < maps_before.map_of(mk).len() {
                            assert(self.symbol_maps.map_of(mk)[t] == maps_before.map_of(mk)[t]);
                            assert(gained_from_symbol(
                                modules0,
                                *symbol,
                                mk,
                                maps_before.map_of(mk)[t],
                            ));
                        } else {
                            assert(installed_symbol(
                                modules0,
                                *symbol,
                                mk,
                                k as int,
                                self.symbol_maps.map_of(mk)[t],
                            ));
                        }
                    }
                    assert forall|kk: int|
                        0 <= kk < k + 1 implies {
                        let cc = #[trigger] symbol.candidates@[kk];
                        !(modules0[cc.module_index as int].sections@[
                            cc.section_index as int].kind is Code) ==> has_symbol_at(
                            self.symbol_maps.map_of(modules0[cc.module_index as int].kind),
                            symbol.address,
                        )
                    } by {
                        let cc = symbol.candidates@[kk];
                        if !(modules0[cc.module_index as int].sections@[
                            cc.section_index as int].kind is Code) {
                            if kk < k {
                                let mk = modules0[cc.module_index as int].kind;
                                let t = choose|t: int|
                                    0 <= t < maps_before.map_of(mk).len() && (
                                    #[trigger] maps_before.map_of(mk)[t]).address
                                        == symbol.address;
                                assert(self.symbol_maps.map_of(mk)[t] == maps_before.map_of(mk)[t]);
                            } else {
                                assert(cc == c);
                                let mk = modules0[cc.module_index as int].kind;
                                assert(mk == module_kind);
                                assert(self.symbol_maps.map_of(mk).len() >= 1);
                                assert(self.symbol_maps.map_of(mk)[self.symbol_maps.map_of(
                                    mk,
                                ).len() - 1].address == symbol.address);
                            }
                        }
                    }
                }
                k += 1;
            }
            proof {
                assert(candidates_ok(modules0, symbol.candidates@));
                assert forall|kk: int|
                    0 <= kk < symbol.candidates@.len() implies {
                    let cc = #[trigger] symbol.candidates@[kk];
                    cc.module_index < modules0.len() && cc.section_index < modules0[
                        cc.module_index as int].sections@.len() && !(modules0[
                        cc.module_index as int].sections@[cc.section_index as int].kind
                        is Code) ==> has_symbol_at(
                        self.symbol_maps.map_of(modules0[cc.module_index as int].kind),
                        symbol.address,
                    )
                } by {
                    assert(0 <= kk < num_candidates);
                }
            }
            Ok(())
        }
    }

    /// Resolve cross-references, one analyzer result per module in layout
    /// order. Each module's relocations are added to its table; each
    /// external symbol's candidates become data or bss symbols per
    /// `resolve_symbol`. The analysis succeeds exactly when every add is
    /// collision-free and every symbol's candidates are in order; the
    /// first violation stops it. The symbol maps only grow, every symbol
    /// they gain is one a candidate installs, and on success every
    /// non-Code candidate's module holds a symbol at the referenced
    /// address.
    pub fn analyze_cross_references(&mut self, results: Vec<RelocationResult>) -> (res: Result<
        (),
        AnalysisError,
    >)
        requires
            old(self).wf(),
            results@.len() == old(self).modules_seq().len(),
        ensures
            final(self).wf(),
            final(self).modules_seq().len() == old(self).modules_seq().len(),
            final(self).overlays_range() == old(self).overlays_range(),
            final(self).autoloads_range() == old(self).autoloads_range(),
            forall|i: int|
                0 <= i < final(self).modules_seq().len() ==> {
                    let m0 = old(self).modules_seq()[i];
                    let m1 = #[trigger] final(self).modules_seq()[i];
                    m1.kind == m0.kind && m1.sections == m0.sections && m1.default_data_prefix
                        == m0.default_data_prefix
                },
            res is Ok <==> analysis_ok(old(self).modules_seq(), results@),
            res is Ok ==> forall|i: int|
                0 <= i < final(self).modules_seq().len() ==> {
                    let t = extend_table(
                        old(self).modules_seq()[i].relocations@,
                        results@[i].relocations.deep_view(),
                    );
                    (#[trigger] final(self).modules_seq()[i]).relocations@ == t.0 && t.1
                },
            forall|mk: ModuleKind|
                final(self).symbol_maps_spec().map_of(mk).len() >= (#[trigger] old(self).symbol_maps_spec().map_of(mk)).len(),
            forall|mk: ModuleKind, t: int|
                0 <= t < old(self).symbol_maps_spec().map_of(mk).len() ==> (#[trigger] final(self).symbol_maps_spec().map_of(mk)[t]) == old(self).symbol_maps_spec().map_of(mk)[t],
            forall|mk: ModuleKind, t: int|
                old(self).symbol_maps_spec().map_of(mk).len() <= t < final(self).symbol_maps_spec().map_of(mk).len() ==> gained_from_results(
                    old(self).modules_seq(),
                    results@,
                    mk,
                    #[trigger] final(self).symbol_maps_spec().map_of(mk)[t],
                ),
            res is Ok ==> forall|i: int, j: int|
                0 <= i < results@.len() && 0 <= j < results@[i].external_symbols@.len()
                    ==> Self::symbol_resolved(
                    old(self).modules_seq(),
                    final(self).symbol_maps_spec(),
                    #[trigger] results@[i].external_symbols@[j],
                ),
    {
        let ghost rs0 = results@;
        let ghost m0 = old(self).modules_seq();
        let ghost maps0 = old(self).symbol_maps_spec();
        let mut pending = results;
        let n = self.modules.len();
        let mut i: usize = 0;
        while i < n
            invariant
                0 <= i <= n == self.modules_seq().len(),
                m0.len() == n,
                rs0.len() == n,
                pending@ == rs0.skip(i as int),
                self.wf(),
                self.overlays_range() == old(self).overlays_range(),
                self.autoloads_range() == old(self).autoloads_range(),
                m0 == old(self).modules_seq(),
                maps0 == old(self).symbol_maps_spec(),
                rs0 == results@,
                forall|k: int|
                    0 <= k < n ==> {
                        let a = m0[k];
                        let b = #[trigger] self.modules_seq()[k];
                        b.kind == a.kind && b.sections == a.sections && b.default_data_prefix
                            == a.default_data_prefix
                    },
                forall|k: int|
                    0 <= k < i ==> {
                        let t = extend_table(m0[k].relocations@, rs0[k].relocations.deep_view());
                        (#[trigger] self.modules_seq()[k]).relocations@ == t.0 && t.1
                    },
                forall|k: int|
                    0 <= k < i ==> extend_table(
                        m0[k].relocations@,
                        (#[trigger] rs0[k]).relocations.deep_view(),
                    ).1,
                forall|k: int|
                    i <= k < n ==> (#[trigger] self.modules_seq()[k]).relocations
                        == m0[k].relocations,
                forall|k: int|
                    0 <= k < i ==> symbols_ok(m0, (#[trigger] rs0[k]).external_symbols@),
                forall|mk: ModuleKind|
                    self.symbol_maps.map_of(mk).len() >= (#[trigger] maps0.map_of(mk)).len(),
                forall|mk: ModuleKind, t: int|
                    0 <= t < maps0.map_of(mk).len() ==> (
                    #[trigger] self.symbol_maps.map_of(mk)[t]) == maps0.map_of(mk)[t],
                forall|mk: ModuleKind, t: int|
                    maps0.map_of(mk).len() <= t < self.symbol_maps.map_of(mk).len()
                        ==> gained_from_results(
                        m0,
                        rs0,
                        mk,
                        #[trigger] self.symbol_maps.map_of(mk)[t],
                    ),
                forall|ii: int, j: int|
                    0 <= ii < i && 0 <= j < rs0[ii].external_symbols@.len()
                        ==> Self::symbol_resolved(
                        m0,
                        self.symbol_maps_spec(),
                        #[trigger] rs0[ii].external_symbols@[j],
                    ),
            decreases n - i,
        {
            let result = pending.remove(0);
            proof {
                assert(rs0.skip(i as int).first() == rs0[i as int]);
                assert(rs0.skip(i as int).drop_first() =~= rs0.skip(i as int + 1));
            }
            let ghost iter0 = self.modules_seq();
            let mut module = self.modules.remove(i);
            let ghost pre = self.modules_seq();
            let extend_res = module.relocations.extend(result.relocations);
            let ghost module_v = module;
            self.modules.insert(i, module);
            proof {
                assert(self.modules_seq() =~= iter0.update(i as int, module_v)) by {
                    assert(pre =~= iter0.remove(i as int));
                    assert forall|k: int|
                        0 <= k < n implies #[trigger] self.modules_seq()[k] == iter0.update(
                        i as int,
                        module_v,
                    )[k] by {
                        if k < i {
                            assert(self.modules_seq()[k] == pre[k]);
                            assert(pre[k] == iter0[k]);
                        } else if k == i {
                            assert(self.modules_seq()[k] == module_v);
                        } else {
                            assert(self.modules_seq()[k] == pre[k - 1]);
                            assert(pre[k - 1] == iter0[k]);
                        }
                    }
                }
                assert(iter0[i as int].relocations == m0[i as int].relocations);
            }
            match extend_res {
                Ok(_) => {},
                Err(e) => {
                    proof {
                        assert(!analysis_ok(m0, rs0)) by {
                            assert(!extend_table(
                                m0[i as int].relocations@,
                                rs0[i as int].relocations.deep_view(),
                            ).1);
                        }
                    }
                    return Err(AnalysisError::Table(e));
                },
            }
            let ghost after_extend = self.modules_seq();
            let num_symbols = result.external_symbols.len();
            let mut j: usize = 0;
            while j < num_symbols
                invariant
                    0 <= j <= num_symbols == result.external_symbols@.len(),
                    0 <= i < n,
                    rs0.len() == n,
                    result.external_symbols@ == rs0[i as int].external_symbols@,
                    self.wf(),
                    self.modules_seq() == after_extend,
                    self.modules_seq().len() == n,
                    m0 == old(self).modules_seq(),
                    m0.len() == n,
                    maps0 == old(self).symbol_maps_spec(),
                    rs0 == results@,
                    self.overlays_range() == old(self).overlays_range(),
                    self.autoloads_range() == old(self).autoloads_range(),
                    forall|k: int|
                        0 <= k < n ==> {
                            let a = m0[k];
                            let b = #[trigger] self.modules_seq()[k];
                            b.kind == a.kind && b.sections == a.sections
                                && b.default_data_prefix == a.default_data_prefix
                        },
                    forall|jj: int|
                        0 <= jj < j ==> candidates_ok(
                            m0,
                            (#[trigger] rs0[i as int].external_symbols@[jj]).candidates@,
                        ),
                    forall|mk: ModuleKind|
                        self.symbol_maps.map_of(mk).len() >= (#[trigger] maps0.map_of(mk)).len(),
                    forall|mk: ModuleKind, t: int|
                        0 <= t < maps0.map_of(mk).len() ==> (
                        #[trigger] self.symbol_maps.map_of(mk)[t]) == maps0.map_of(mk)[t],
                    forall|mk: ModuleKind, t: int|
                        maps0.map_of(mk).len() <= t < self.symbol_maps.map_of(mk).len()
                            ==> gained_from_results(
                            m0,
                            rs0,
                            mk,
                            #[trigger] self.symbol_maps.map_of(mk)[t],
                        ),
                    forall|ii: int, jj: int|
                        ((0 <= ii < i && 0 <= jj < rs0[ii].external_symbols@.len()) || (ii == i
                            && 0 <= jj < j)) && 0 <= ii < rs0.len() && 0 <= jj < rs0[
                            ii].external_symbols@.len() ==> Self::symbol_resolved(
                            m0,
                            self.symbol_maps_spec(),
                            #[trigger] rs0[ii].external_symbols@[jj],
                        ),
                decreases num_symbols - j,
            {
                let ghost maps_before = self.symbol_maps;
                let ghost sym = result.external_symbols@[j as int];
                let ghost cur_modules = self.modules_seq();
                proof {
                    assert forall|k: int|
                        0 <= k < sym.candidates@.len() && (
                    #[trigger] sym.candidates@[k]).module_index < n implies cur_modules[
                        sym.candidates@[k].module_index as int].sections == m0[sym.candidates@[
                        k].module_index as int].sections && cur_modules[sym.candidates@[
                        k].module_index as int].kind == m0[sym.candidates@[
                        k].module_index as int].kind && cur_modules[sym.candidates@[
                        k].module_index as int].default_data_prefix == m0[sym.candidates@[
                        k].module_index as int].default_data_prefix by {}
                }
                let res = self.resolve_symbol(&result.external_symbols[j]);
                proof {
                    assert(candidates_ok(cur_modules, sym.candidates@) == candidates_ok(
                        m0,
                        sym.candidates@,
                    )) by {
                        if candidates_ok(cur_modules, sym.candidates@) {
                            assert forall|k: int|
                                0 <= k < sym.candidates@.len() implies (
                            #[trigger] sym.candidates@[k]).module_index < m0.len()
                                && sym.candidates@[k].section_index < m0[sym.candidates@[
                                k].module_index as int].sections@.len() by {
                                assert(sym.candidates@[k].module_index < cur_modules.len());
                            }
                        }
                        if candidates_ok(m0, sym.candidates@) {
                            assert forall|k: int|
                                0 <= k < sym.candidates@.len() implies (
                            #[trigger] sym.candidates@[k]).module_index < cur_modules.len()
                                && sym.candidates@[k].section_index < cur_modules[
                                sym.candidates@[k].module_index as int].sections@.len() by {
                                assert(sym.candidates@[k].module_index < m0.len());
                            }
                        }
                    }
                }
                match res {
                    Ok(_) => {},
                    Err(e) => {
                        proof {
                            assert forall|mk: ModuleKind, t: int|
                                maps0.map_of(mk).len() <= t < self.symbol_maps.map_of(
                                    mk,
                                ).len() implies gained_from_results(
                                m0,
                                rs0,
                                mk,
                                #[trigger] self.symbol_maps.map_of(mk)[t],
                            ) by {
                                if t < maps_before.map_of(mk).len() {
                                    assert(self.symbol_maps.map_of(mk)[t]
                                        == maps_before.map_of(mk)[t]);
                                    assert(gained_from_results(
                                        m0,
                                        rs0,
                                        mk,
                                        maps_before.map_of(mk)[t],
                                    ));
                                } else {
                                    let k = choose|k: int|
                                        installed_symbol(
                                            cur_modules,
                                            sym,
                                            mk,
                                            k,
                                            self.symbol_maps.map_of(mk)[t],
                                        );
                                    let c = sym.candidates@[k];
                                    assert(cur_modules[c.module_index as int].sections == m0[
                                        c.module_index as int].sections);
                                    assert(cur_modules[c.module_index as int].kind == m0[
                                        c.module_index as int].kind);
                                    assert(cur_modules[
                                        c.module_index as int].default_data_prefix == m0[
                                        c.module_index as int].default_data_prefix);
                                    assert(installed_symbol(
                                        m0,
                                        sym,
                                        mk,
                                        k,
                                        self.symbol_maps.map_of(mk)[t],
                                    ));
                                    assert(gained_from_symbol(
                                        m0,
                                        rs0[i as int].external_symbols@[j as int],
                                        mk,
                                        self.symbol_maps.map_of(mk)[t],
                                    ));
                                    assert(gained_from_results(
                                        m0,
                                        rs0,
                                        mk,
                                        self.symbol_maps.map_of(mk)[t],
                                    ));
                                }
                            }
                            assert forall|mk: ModuleKind|
                                (#[trigger] self.symbol_maps.map_of(mk)).len()
                                    >= maps0.map_of(mk).len() by {
                                assert(self.symbol_maps.map_of(mk).len()
                                    >= maps_before.map_of(mk).len());
                            }
                            assert forall|mk: ModuleKind, t: int|
                                0 <= t < maps0.map_of(mk).len() implies (
                            #[trigger] self.symbol_maps.map_of(mk)[t]) == maps0.map_of(
                                mk,
                            )[t] by {
                                assert(self.symbol_maps.map_of(mk)[t] == maps_before.map_of(
                                    mk,
                                )[t]);
                                assert(maps_before.map_of(mk)[t] == maps0.map_of(mk)[t]);
                            }
                            assert(!analysis_ok(m0, rs0)) by {
                                assert(!candidates_ok(m0, sym.candidates@));
                                assert(!symbols_ok(m0, rs0[i as int].external_symbols@)) by {
                                    assert(rs0[i as int].external_symbols@[j as int] == sym);
                                }
                            }
                        }
                        return Err(e);
                    },
                }
                proof {
                    assert(Self::symbol_resolved(cur_modules, self.symbol_maps_spec(), sym));
                    assert(Self::symbol_resolved(m0, self.symbol_maps_spec(), sym)) by {
                        assert forall|k: int|
                            0 <= k < sym.candidates@.len() implies {
                            let c = #[trigger] sym.candidates@[k];
                            c.module_index < m0.len() && c.section_index < m0[
                                c.module_index as int].sections@.len() && !(m0[
                                c.module_index as int].sections@[c.section_index as int].kind
                                is Code) ==> has_symbol_at(
                                self.symbol_maps_spec().map_of(m0[c.module_index as int].kind),
                                sym.address,
                            )
                        } by {
                            let c = sym.candidates@[k];
                            if c.module_index < m0.len() {
                                assert(cur_modules[c.module_index as int].sections == m0[
                                    c.module_index as int].sections);
                                assert(cur_modules[c.module_index as int].kind == m0[
                                    c.module_index as int].kind);
                            }
                        }
                    }
                    assert forall|mk: ModuleKind, t: int|
                        maps0.map_of(mk).len() <= t < self.symbol_maps.map_of(mk).len()
                        implies gained_from_results(
                        m0,
                        rs0,
                        mk,
                        #[trigger] self.symbol_maps.map_of(mk)[t],
                    ) by {
                        if t < maps_before.map_of(mk).len() {
                            assert(self.symbol_maps.map_of(mk)[t] == maps_before.map_of(mk)[t]);
                            assert(gained_from_results(m0, rs0, mk, maps_before.map_of(mk)[t]));
                        } else {
                            let k = choose|k: int|
                                installed_symbol(
                                    cur_modules,
                                    sym,
                                    mk,
                                    k,
                                    self.symbol_maps.map_of(mk)[t],
                                );
                            let c = sym.candidates@[k];
                            assert(cur_modules[c.module_index as int].sections == m0[
                                c.module_index as int].sections);
                            assert(cur_modules[c.module_index as int].kind == m0[
                                c.module_index as int].kind);
                            assert(cur_modules[c.module_index as int].default_data_prefix
                                == m0[c.module_index as int].default_data_prefix);
                            assert(installed_symbol(
                                m0,
                                sym,
                                mk,
                                k,
                                self.symbol_maps.map_of(mk)[t],
                            ));
                            assert(gained_from_symbol(
                                m0,
                                rs0[i as int].external_symbols@[j as int],
                                mk,
                                self.symbol_maps.map_of(mk)[t],
                            ));
                            assert(gained_from_results(
                                m0,
                                rs0,
                                mk,
                                self.symbol_maps.map_of(mk)[t],
                            ));
                        }
                    }
                    assert forall|ii: int, jj: int|
                        ((0 <= ii < i && 0 <= jj < rs0[ii].external_symbols@.len()) || (ii == i
                            && 0 <= jj < j + 1)) && 0 <= ii < rs0.len() && 0 <= jj < rs0[
                            ii].external_symbols@.len() implies Self::symbol_resolved(
                        m0,
                        self.symbol_maps_spec(),
                        #[trigger] rs0[ii].external_symbols@[jj],
                    ) by {
                        if ii == i && jj == j {
                        } else {
                            Self::lemma_resolved_persists(
                                m0,
                                maps_before,
                                self.symbol_maps,
                                rs0[ii].external_symbols@[jj],
                            );
                        }
                    }
                    assert forall|mk: ModuleKind|
                        self.symbol_maps.map_of(mk).len() >= (#[trigger] maps0.map_of(
                            mk,
                        )).len() by {
                        assert(self.symbol_maps.map_of(mk).len() >= maps_before.map_of(
                            mk,
                        ).len());
                    }
                    assert forall|mk: ModuleKind, t: int|
                        0 <= t < maps0.map_of(mk).len() implies (
                    #[trigger] self.symbol_maps.map_of(mk)[t]) == maps0.map_of(mk)[t] by {
                        assert(self.symbol_maps.map_of(mk)[t] == maps_before.map_of(mk)[t]);
                        assert(maps_before.map_of(mk)[t] == maps0.map_of(mk)[t]);
                    }
                }
                j += 1;
            }
            proof {
                assert(symbols_ok(m0, rs0[i as int].external_symbols@)) by {
                    assert(result.external_symbols@ == rs0[i as int].external_symbols@);
                }
            }
            i += 1;
        }
        proof {
            if analysis_ok(m0, rs0) {
            } else {
                assert(exists|k: int|
                    0 <= k < rs0.len() && !(extend_table(
                        m0[k].relocations@,
                        (#[trigger] rs0[k]).relocations.deep_view(),
                    ).1 && symbols_ok(m0, rs0[k].external_symbols@)));
            }
        }
        Ok(())
    }

    /// The main module.
    pub fn main(&self) -> (r: &Module)
        requires
            self.wf(),
        ensures
            r == &self.modules_seq()[0],
    {
        &self.modules[0]
    }

    /// The overlay modules.
    pub fn overlays(&self) -> (r: &[Module])
        requires
            self.wf(),
        ensures
            r@ == self.modules_seq().subrange(self.overlays_range().0, self.overlays_range().1),
    {
        vstd::slice::slice_subrange(self.modules.as_slice(), self.overlays_start,
            self.overlays_end)
    }

    /// The autoload modules.
    pub fn autoloads(&self) -> (r: &[Module])
        requires
            self.wf(),
        ensures
            r@ == self.modules_seq().subrange(
                self.autoloads_range().0,
                self.autoloads_range().1,
            ),
    {
        vstd::slice::slice_subrange(self.modules.as_slice(), self.autoloads_start,
            self.autoloads_end)
    }

    /// One module.
    pub fn module(&self, index: usize) -> (r: &Module)
        requires
            index < self.modules_seq().len(),
        ensures
            r == &self.modules_seq()[index as int],
    {
        &self.modules[index]
    }

    /// One module, for writing.
    pub fn module_mut(&mut self, index: usize) -> (r: &mut Module)
        requires
            index < old(self).modules_seq().len(),
        ensures
            *r == old(self).modules_seq()[index as int],
            final(self).modules_seq() == old(self).modules_seq().update(
                index as int,
                *final(r),
            ),
            final(self).symbol_maps_spec() == old(self).symbol_maps_spec(),
            final(self).overlays_range() == old(self).overlays_range(),
            final(self).autoloads_range() == old(self).autoloads_range(),
    {
        &mut self.modules[index]
    }

    /// How many modules the program has.
    pub fn num_modules(&self) -> (r: usize)
        ensures
            r == self.modules_seq().len(),
    {
        self.modules.len()
    }

    /// The symbol maps of all modules.
    pub fn symbol_maps(&self) -> (r: &SymbolMaps)
        ensures
            r == &self.symbol_maps_spec(),
    {
        &self.symbol_maps
    }
}

/// The modules other than a focused one, as the slices before and after
/// it.
pub struct ExternalModules<'a> {
    before: &'a [Module],
    after: &'a [Module],
    module_index: usize,
}

impl<'a> ExternalModules<'a> {
    /// The slices as values.
    pub closed spec fn parts(&self) -> (Seq<Module>, Seq<Module>, int) {
        (self.before@, self.after@, self.module_index as int)
    }

    /// The focused index equals the length of the prefix.
    pub open spec fn wf(&self) -> bool {
        self.parts().2 == self.parts().0.len()
    }

    /// The view before and after the focused module.
    pub fn new(before: &'a [Module], after: &'a [Module]) -> (r: ExternalModules<'a>)
        ensures
            r.parts() == (before@, after@, before@.len() as int),
            r.wf(),
    {
        ExternalModules { before, after, module_index: before.len() }
    }

    /// The module at an index of the combined view.
    pub fn get(&self, index: usize) -> (r: &Module)
        requires
            self.wf(),
            index < self.parts().0.len() + self.parts().1.len(),
        ensures
            (index as int) < self.parts().0.len() ==> r == &self.parts().0[index as int],
            (index as int) >= self.parts().0.len() ==> r == &self.parts().1[index as int
                - self.parts().0.len()],
    {
        if index < self.module_index {
            &self.before[index]
        } else {
            &self.after[index - self.module_index]
        }
    }

    /// How many modules the view holds.
    pub fn len(&self) -> (r: usize)
        requires
            self.wf(),
            self.parts().0.len() + self.parts().1.len() <= usize::MAX,
        ensures
            r == self.parts().0.len() + self.parts().1.len(),
    {
        self.module_index + self.after.len()
    }

    /// Every module of the view, prefix first.
    pub fn iter(&self) -> (r: Vec<&'a Module>)
        requires
            self.wf(),
        ensures
            r@.len() == self.parts().0.len() + self.parts().1.len(),
            forall|i: int|
                0 <= i < self.parts().0.len() ==> #[trigger] r@[i] == &self.parts().0[i],
            forall|i: int|
                self.parts().0.len() <= i < r@.len() ==> #[trigger] r@[i] == &self.parts().1[i
                    - self.parts().0.len()],
    {
        let mut r: Vec<&'a Module> = Vec::new();
        let mut i: usize = 0;
        while i < self.before.len()
            invariant
                0 <= i <= self.before@.len(),
                r@.len() == i,
                forall|k: int| 0 <= k < i ==> #[trigger] r@[k] == &self.before@[k],
            decreases self.before@.len() - i,
        {
            r.push(&self.before[i]);
            i += 1;
        }
        let mut j: usize = 0;
        while j < self.after.len()
            invariant
                0 <= j <= self.after@.len(),
                r@.len() == self.before@.len() + j,
                forall|k: int| 0 <= k < self.before@.len() ==> #[trigger] r@[k] == &self.before@[k],
                forall|k: int|
                    self.before@.len() <= k < r@.len() ==> #[trigger] r@[k] == &self.after@[k
                        - self.before@.len()],
            decreases self.after@.len() - j,
        {
            r.push(&self.after[j]);
            j += 1;
        }
        r
    }
}

} // verus!
