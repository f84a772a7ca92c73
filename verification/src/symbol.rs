//! Per-module symbol maps: an address-keyed accumulation of function, data
//! and bss symbols, including the parallel ambiguous entries that an
//! address inside several overlays produces.

use vstd::prelude::*;
use crate::module::ModuleKind;

verus! {

/// What is known of a data symbol.
#[derive(Clone, Copy, Debug, PartialEq, Eq, Structural)]
pub enum SymData {
    Any,
}

/// What is known of a bss symbol.
#[derive(Clone, Copy, Debug, PartialEq, Eq, Structural)]
pub struct SymBss {
    pub size: Option<u32>,
}

/// The role of a symbol.
#[derive(Clone, Copy, Debug, PartialEq, Eq, Structural)]
pub enum SymbolRole {
    Function,
    Data(SymData),
    Bss(SymBss),
    AmbiguousData(SymData),
    AmbiguousBss(SymBss),
}

/// One symbol: a name, the address it stands at, and its role.
pub struct Symbol {
    pub name: String,
    pub address: u32,
    pub kind: SymbolRole,
}

/// Whether some entry of `s` stands at `address`.
pub open spec fn has_symbol_at(s: Seq<Symbol>, address: u32) -> bool {
    exists|i: int| 0 <= i < s.len() && #[trigger] s[i].address == address
}

/// The symbols of one module, accumulated in insertion order.
pub struct SymbolMap {
    entries: Vec<Symbol>,
}

impl View for SymbolMap {
    type V = Seq<Symbol>;

    closed spec fn view(&self) -> Seq<Symbol> {
        self.entries@
    }
}

impl SymbolMap {
    /// An empty map.
    pub fn new() -> (r: SymbolMap)
        ensures
            r@ =~= Seq::<Symbol>::empty(),
    {
        SymbolMap { entries: Vec::new() }
    }

    /// The first symbol at the given address, if any.
    pub fn by_address(&self, address: u32) -> (r: Option<&Symbol>)
        ensures
            match r {
                Some(sym) => has_symbol_at(self@, address) && sym.address == address && exists|
                    i: int,
                |
                    0 <= i < self@.len() && self@[i] == *sym,
                None => !has_symbol_at(self@, address),
            },
    {
        let mut i: usize = 0;
        while i < self.entries.len()
            invariant
                0 <= i <= self.entries@.len(),
                forall|k: int| 0 <= k < i ==> #[trigger] self.entries@[k].address != address,
            decreases self.entries@.len() - i,
        {
            if self.entries[i].address == address {
                return Some(&self.entries[i]);
            }
            i += 1;
        }
        None
    }

    /// Record a symbol. An address already mapped keeps its first symbol;
    /// an ambiguous symbol is always a fresh entry.
    pub fn insert_symbol(&mut self, sym: Symbol) -> (added: bool)
        ensures
            added ==> final(self)@ == old(self)@.push(sym),
            !added ==> final(self)@ == old(self)@ && has_symbol_at(old(self)@, sym.address),
            has_symbol_at(final(self)@, sym.address),
            sym.kind is AmbiguousData || sym.kind is AmbiguousBss ==> added,
            !has_symbol_at(old(self)@, sym.address) ==> added,
            !(sym.kind is AmbiguousData || sym.kind is AmbiguousBss) && has_symbol_at(
                old(self)@,
                sym.address,
            ) ==> !added,
    {
        let ambiguous = matches!(sym.kind, SymbolRole::AmbiguousData(_) | SymbolRole::AmbiguousBss(_));
        if !ambiguous {
            let mut i: usize = 0;
            while i < self.entries.len()
                invariant
                    0 <= i <= self.entries@.len(),
                    !(sym.kind is AmbiguousData || sym.kind is AmbiguousBss),
                    forall|k: int|
                        0 <= k < i ==> #[trigger] self.entries@[k].address != sym.address,
                decreases self.entries@.len() - i,
            {
                if self.entries[i].address == sym.address {
                    return false;
                }
                i += 1;
            }
        }
        let ghost a = sym.address;
        self.entries.push(sym);
        proof {
            assert(self.entries@[self.entries@.len() - 1].address == a);
        }
        true
    }

    /// Record a function symbol by name and address.
    pub fn add_function_symbol(&mut self, name: String, address: u32)
        ensures
            has_symbol_at(final(self)@, address),
            has_symbol_at(old(self)@, address) ==> final(self)@ == old(self)@,
            !has_symbol_at(old(self)@, address) ==> final(self)@ == old(self)@.push(
                Symbol { name, address, kind: SymbolRole::Function },
            ),
    {
        let _added = self.insert_symbol(Symbol { name, address, kind: SymbolRole::Function });
    }

    /// Record a concrete data symbol.
    pub fn add_data(&mut self, name: String, address: u32, data: SymData)
        ensures
            has_symbol_at(final(self)@, address),
            has_symbol_at(old(self)@, address) ==> final(self)@ == old(self)@,
            !has_symbol_at(old(self)@, address) ==> final(self)@ == old(self)@.push(
                Symbol { name, address, kind: SymbolRole::Data(data) },
            ),
    {
        let _added = self.insert_symbol(Symbol { name, address, kind: SymbolRole::Data(data) });
    }

    /// Record a concrete bss symbol.
    pub fn add_bss(&mut self, name: String, address: u32, bss: SymBss)
        ensures
            has_symbol_at(final(self)@, address),
            has_symbol_at(old(self)@, address) ==> final(self)@ == old(self)@,
            !has_symbol_at(old(self)@, address) ==> final(self)@ == old(self)@.push(
                Symbol { name, address, kind: SymbolRole::Bss(bss) },
            ),
    {
        let _added = self.insert_symbol(Symbol { name, address, kind: SymbolRole::Bss(bss) });
    }

    /// Record an ambiguous data symbol: one parallel entry per candidate.
    pub fn add_ambiguous_data(&mut self, name: String, address: u32, data: SymData)
        ensures
            final(self)@ == old(self)@.push(
                Symbol { name, address, kind: SymbolRole::AmbiguousData(data) },
            ),
    {
        let _added = self.insert_symbol(
            Symbol { name, address, kind: SymbolRole::AmbiguousData(data) },
        );
    }

    /// Record an ambiguous bss symbol: one parallel entry per candidate.
    pub fn add_ambiguous_bss(&mut self, name: String, address: u32, bss: SymBss)
        ensures
            final(self)@ == old(self)@.push(
                Symbol { name, address, kind: SymbolRole::AmbiguousBss(bss) },
            ),
    {
        let _added = self.insert_symbol(
            Symbol { name, address, kind: SymbolRole::AmbiguousBss(bss) },
        );
    }

    /// All symbols, in insertion order.
    pub fn symbols(&self) -> (r: &Vec<Symbol>)
        ensures
            r@ == self@,
    {
        &self.entries
    }
}

/// The symbol maps of a whole program, one per module.
pub struct SymbolMaps {
    maps: Vec<(ModuleKind, SymbolMap)>,
}

/// The map recorded for a module in a list of maps, or empty.
pub open spec fn entry_view_of(s: Seq<(ModuleKind, SymbolMap)>, kind: ModuleKind) -> Seq<Symbol>
    decreases s.len(),
{
    if s.len() == 0 {
        Seq::empty()
    } else if s.first().0 == kind {
        s.first().1@
    } else {
        entry_view_of(s.drop_first(), kind)
    }
}

/// The recorded map is the one at the first index with the module's kind.
proof fn lemma_entry_view_at(s: Seq<(ModuleKind, SymbolMap)>, kind: ModuleKind, i: int)
    requires
        0 <= i < s.len(),
        s[i].0 == kind,
        forall|k: int| 0 <= k < i ==> (#[trigger] s[k]).0 != kind,
    ensures
        entry_view_of(s, kind) == s[i].1@,
    decreases s.len(),
{
    if i > 0 {
        let t = s.drop_first();
        assert(forall|k: int| 0 <= k < t.len() ==> #[trigger] t[k] == s[k + 1]);
        assert(t[i - 1] == s[i]);
        assert forall|k: int| 0 <= k < i - 1 implies (#[trigger] t[k]).0 != kind by {
            assert(t[k] == s[k + 1]);
        }
        lemma_entry_view_at(t, kind, i - 1);
    }
}

/// A module absent from the list has the empty map.
proof fn lemma_entry_view_absent(s: Seq<(ModuleKind, SymbolMap)>, kind: ModuleKind)
    requires
        forall|k: int| 0 <= k < s.len() ==> (#[trigger] s[k]).0 != kind,
    ensures
        entry_view_of(s, kind) == Seq::<Symbol>::empty(),
    decreases s.len(),
{
    if s.len() > 0 {
        let t = s.drop_first();
        assert forall|k: int| 0 <= k < t.len() implies (#[trigger] t[k]).0 != kind by {
            assert(t[k] == s[k + 1]);
        }
        lemma_entry_view_absent(t, kind);
    }
}

/// Two lists that agree in kinds everywhere, and in value everywhere but
/// at slots of one module, agree on every other module's map.
proof fn lemma_entry_view_frame(
    a: Seq<(ModuleKind, SymbolMap)>,
    b: Seq<(ModuleKind, SymbolMap)>,
    kind: ModuleKind,
    k2: ModuleKind,
)
    requires
        a.len() == b.len(),
        forall|i: int| 0 <= i < a.len() ==> (#[trigger] a[i]).0 == (#[trigger] b[i]).0,
        forall|i: int| 0 <= i < a.len() && a[i].0 != kind ==> #[trigger] a[i] == #[trigger] b[i],
        k2 != kind,
    ensures
        entry_view_of(a, k2) == entry_view_of(b, k2),
    decreases a.len(),
{
    if a.len() > 0 {
        let ta = a.drop_first();
        let tb = b.drop_first();
        assert(forall|i: int| 0 <= i < ta.len() ==> #[trigger] ta[i] == a[i + 1]);
        assert(forall|i: int| 0 <= i < tb.len() ==> #[trigger] tb[i] == b[i + 1]);
        lemma_entry_view_frame(ta, tb, kind, k2);
        if a.first().0 == k2 {
            assert(a[0] == b[0]);
        }
    }
}

/// Inserting a slot for one module leaves every other module's map as it
/// was.
proof fn lemma_entry_view_insert_other(
    s: Seq<(ModuleKind, SymbolMap)>,
    kind: ModuleKind,
    m: SymbolMap,
    i: int,
    k2: ModuleKind,
)
    requires
        0 <= i <= s.len(),
        k2 != kind,
    ensures
        entry_view_of(s.insert(i, (kind, m)), k2) == entry_view_of(s, k2),
    decreases s.len(),
{
    let a = s.insert(i, (kind, m));
    if i == 0 {
        assert(a.first() == (kind, m));
        assert(a.drop_first() =~= s);
    } else {
        assert(a.first() == s.first());
        assert(a.drop_first() =~= s.drop_first().insert(i - 1, (kind, m)));
        lemma_entry_view_insert_other(s.drop_first(), kind, m, i - 1, k2);
    }
}

impl SymbolMaps {
    /// The map this set holds for a module, empty when none was made yet.
    pub open spec fn map_of(&self, kind: ModuleKind) -> Seq<Symbol> {
        entry_view_of(self.maps_seq(), kind)
    }

    /// The recorded maps.
    pub closed spec fn maps_seq(&self) -> Seq<(ModuleKind, SymbolMap)> {
        self.maps@
    }

    /// An empty set of maps.
    pub fn new() -> (r: SymbolMaps)
        ensures
            forall|k: ModuleKind| r.map_of(k) =~= Seq::<Symbol>::empty(),
    {
        let r = SymbolMaps { maps: Vec::new() };
        proof {
            assert forall|k: ModuleKind| r.map_of(k) =~= Seq::<Symbol>::empty() by {
                assert(entry_view_of(r.maps@, k) == Seq::<Symbol>::empty());
            }
        }
        r
    }

    /// The map of a module, for reading; absent means still empty.
    pub fn map(&self, kind: ModuleKind) -> (r: Option<&SymbolMap>)
        ensures
            match r {
                Some(m) => m@ == self.map_of(kind),
                None => self.map_of(kind) =~= Seq::<Symbol>::empty(),
            },
    {
        let n = self.maps.len();
        let mut i: usize = 0;
        while i < n
            invariant
                0 <= i <= n == self.maps@.len(),
                forall|k: int| 0 <= k < i ==> (#[trigger] self.maps@[k]).0 != kind,
            decreases n - i,
        {
            if kinds_eq(self.maps[i].0, kind) {
                proof {
                    lemma_entry_view_at(self.maps@, kind, i as int);
                }
                return Some(&self.maps[i].1);
            }
            i += 1;
        }
        proof {
            lemma_entry_view_absent(self.maps@, kind);
        }
        None
    }

    /// Record a symbol in a module's map, with the map's own insertion
    /// rule: a concrete symbol keeps an earlier one at its address, an
    /// ambiguous symbol is always a fresh entry.
    fn insert_in(&mut self, kind: ModuleKind, sym: Symbol) -> (added: bool)
        ensures
            added ==> final(self).map_of(kind) == old(self).map_of(kind).push(sym),
            !added ==> final(self).map_of(kind) == old(self).map_of(kind) && has_symbol_at(
                old(self).map_of(kind),
                sym.address,
            ),
            sym.kind is AmbiguousData || sym.kind is AmbiguousBss ==> added,
            !has_symbol_at(old(self).map_of(kind), sym.address) ==> added,
            !(sym.kind is AmbiguousData || sym.kind is AmbiguousBss) && has_symbol_at(
                old(self).map_of(kind),
                sym.address,
            ) ==> !added,
            forall|k2: ModuleKind|
                k2 != kind ==> final(self).map_of(k2) == old(self).map_of(k2),
    {
        let n = self.maps.len();
        let mut i: usize = 0;
        while i < n
            invariant
                0 <= i <= n == self.maps@.len(),
                self.maps@ == old(self).maps@,
                forall|k: int| 0 <= k < i ==> (#[trigger] self.maps@[k]).0 != kind,
            decreases n - i,
        {
            if kinds_eq(self.maps[i].0, kind) {
                proof {
                    lemma_entry_view_at(self.maps@, kind, i as int);
                }
                let mut entry = self.maps.remove(i);
                let added = entry.1.insert_symbol(sym);
                let ghost updated = entry.1;
                self.maps.insert(i, entry);
                proof {
                    assert(self.maps@ =~= old(self).maps@.update(i as int, (kind, updated)));
                    assert forall|k: int| 0 <= k < i implies (#[trigger] self.maps@[k]).0
                        != kind by {
                        assert(self.maps@[k] == old(self).maps@[k]);
                    }
                    lemma_entry_view_at(self.maps@, kind, i as int);
                    assert forall|k2: ModuleKind|
                        k2 != kind implies entry_view_of(self.maps@, k2) == entry_view_of(
                        old(self).maps@,
                        k2,
                    ) by {
                        lemma_entry_view_frame(old(self).maps@, self.maps@, kind, k2);
                    }
                }
                return added;
            }
            i += 1;
        }
        proof {
            lemma_entry_view_absent(self.maps@, kind);
        }
        let mut m = SymbolMap::new();
        let added = m.insert_symbol(sym);
        let ghost updated = m;
        self.maps.push((kind, m));
        proof {
            assert(self.maps@ =~= old(self).maps@.insert(n as int, (kind, updated)));
            assert forall|k: int| 0 <= k < n implies (#[trigger] self.maps@[k]).0 != kind by {
                assert(self.maps@[k] == old(self).maps@[k]);
            }
            lemma_entry_view_at(self.maps@, kind, n as int);
            assert forall|k2: ModuleKind|
                k2 != kind implies entry_view_of(self.maps@, k2) == entry_view_of(
                old(self).maps@,
                k2,
            ) by {
                lemma_entry_view_insert_other(old(self).maps@, kind, updated, n as int, k2);
            }
            assert(Seq::<Symbol>::empty().push(sym) =~= updated@ || Seq::<Symbol>::empty()
                =~= updated@);
        }
        added
    }

    /// Record a concrete data symbol in a module's map.
    pub fn add_data(&mut self, kind: ModuleKind, name: String, address: u32, data: SymData)
        ensures
            has_symbol_at(final(self).map_of(kind), address),
            has_symbol_at(old(self).map_of(kind), address) ==> final(self).map_of(kind) == old(
                self,
            ).map_of(kind),
            !has_symbol_at(old(self).map_of(kind), address) ==> final(self).map_of(kind) == old(
                self,
            ).map_of(kind).push(
                Symbol { name, address, kind: SymbolRole::Data(data) },
            ),
            forall|k2: ModuleKind|
                k2 != kind ==> final(self).map_of(k2) == old(self).map_of(k2),
    {
        let added = self.insert_in(kind, Symbol { name, address, kind: SymbolRole::Data(data) });
        proof {
            if added {
                assert(final(self).map_of(kind).last().address == address);
            }
        }
    }

    /// Record a concrete bss symbol in a module's map.
    pub fn add_bss(&mut self, kind: ModuleKind, name: String, address: u32, bss: SymBss)
        ensures
            has_symbol_at(final(self).map_of(kind), address),
            has_symbol_at(old(self).map_of(kind), address) ==> final(self).map_of(kind) == old(
                self,
            ).map_of(kind),
            !has_symbol_at(old(self).map_of(kind), address) ==> final(self).map_of(kind) == old(
                self,
            ).map_of(kind).push(
                Symbol { name, address, kind: SymbolRole::Bss(bss) },
            ),
            forall|k2: ModuleKind|
                k2 != kind ==> final(self).map_of(k2) == old(self).map_of(k2),
    {
        let added = self.insert_in(kind, Symbol { name, address, kind: SymbolRole::Bss(bss) });
        proof {
            if added {
                assert(final(self).map_of(kind).last().address == address);
            }
        }
    }

    /// Record an ambiguous data symbol in a module's map.
    pub fn add_ambiguous_data(&mut self, kind: ModuleKind, name: String, address: u32, data:
        SymData)
        ensures
            final(self).map_of(kind) == old(self).map_of(kind).push(
                Symbol { name, address, kind: SymbolRole::AmbiguousData(data) },
            ),
            forall|k2: ModuleKind|
                k2 != kind ==> final(self).map_of(k2) == old(self).map_of(k2),
    {
        let added = self.insert_in(
            kind,
            Symbol { name, address, kind: SymbolRole::AmbiguousData(data) },
        );
    }

    /// Record an ambiguous bss symbol in a module's map.
    pub fn add_ambiguous_bss(&mut self, kind: ModuleKind, name: String, address: u32, bss:
        SymBss)
        ensures
            final(self).map_of(kind) == old(self).map_of(kind).push(
                Symbol { name, address, kind: SymbolRole::AmbiguousBss(bss) },
            ),
            forall|k2: ModuleKind|
                k2 != kind ==> final(self).map_of(k2) == old(self).map_of(k2),
    {
        let added = self.insert_in(
            kind,
            Symbol { name, address, kind: SymbolRole::AmbiguousBss(bss) },
        );
    }
}

/// Whether two module kinds are the same.
pub fn kinds_eq(a: ModuleKind, b: ModuleKind) -> (r: bool)
    ensures
        r == (a == b),
{
    match (a, b) {
        (ModuleKind::Arm9, ModuleKind::Arm9) => true,
        (ModuleKind::Overlay(x), ModuleKind::Overlay(y)) => x == y,
        (ModuleKind::Autoload(x), ModuleKind::Autoload(y)) => matches!(
            (x, y),
            (crate::module::AutoloadKind::Itcm, crate::module::AutoloadKind::Itcm) | (
                crate::module::AutoloadKind::Dtcm,
                crate::module::AutoloadKind::Dtcm,
            ) | (crate::module::AutoloadKind::Unknown, crate::module::AutoloadKind::Unknown),
        ),
        _ => false,
    }
}

} // verus!
