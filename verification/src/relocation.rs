//! Typed relocations and the per-module relocation table: an ordered,
//! de-duplicated mapping from source address to relocation.

use vstd::prelude::*;
use crate::module::{AutoloadKind, ModuleKind};

verus! {

/// How a relocation rewrites its source instruction.
#[derive(Clone, Copy, Debug, PartialEq, Eq, Structural)]
pub enum RelocationKind {
    ArmCall,
    ThumbCall,
    ArmCallThumb,
    ThumbCallArm,
    Load,
}

/// Which module or modules a relocation points into. `Overlays` records an
/// ambiguous target and carries at least two overlay ids.
#[derive(Clone, Debug, PartialEq, Eq)]
pub enum RelocationModule {
    NoTarget,
    Overlay { id: u16 },
    Overlays { ids: Vec<u16> },
    Main,
    Itcm,
    Dtcm,
}

/// The mathematical value of a `RelocationModule`.
pub enum ModuleView {
    NoTarget,
    Overlay(u16),
    Overlays(Seq<u16>),
    Main,
    Itcm,
    Dtcm,
}

impl View for RelocationModule {
    type V = ModuleView;

    open spec fn view(&self) -> ModuleView {
        match self {
            RelocationModule::NoTarget => ModuleView::NoTarget,
            RelocationModule::Overlay { id } => ModuleView::Overlay(*id),
            RelocationModule::Overlays { ids } => ModuleView::Overlays(ids@),
            RelocationModule::Main => ModuleView::Main,
            RelocationModule::Itcm => ModuleView::Itcm,
            RelocationModule::Dtcm => ModuleView::Dtcm,
        }
    }
}

/// A module target is well formed when an ambiguous target names at least
/// two overlays.
pub open spec fn module_valid(m: ModuleView) -> bool {
    match m {
        ModuleView::Overlays(ids) => ids.len() >= 2,
        _ => true,
    }
}

/// One relocation: a source address, a target address, the rewrite kind,
/// and the target module or modules.
#[derive(Clone, Debug, PartialEq, Eq)]
pub struct Relocation {
    from: u32,
    to: u32,
    kind: RelocationKind,
    module: RelocationModule,
}

/// The mathematical value of a `Relocation`.
pub struct RelocationView {
    pub from: u32,
    pub to: u32,
    pub kind: RelocationKind,
    pub module: ModuleView,
}

impl View for Relocation {
    type V = RelocationView;

    closed spec fn view(&self) -> RelocationView {
        RelocationView { from: self.from, to: self.to, kind: self.kind, module: self.module@ }
    }
}

/// The relocation kind a call gets, from the encodings of its two ends.
pub open spec fn call_kind(from_thumb: bool, to_thumb: bool) -> RelocationKind {
    match (from_thumb, to_thumb) {
        (true, true) => RelocationKind::ThumbCall,
        (true, false) => RelocationKind::ThumbCallArm,
        (false, true) => RelocationKind::ArmCallThumb,
        (false, false) => RelocationKind::ArmCall,
    }
}

impl Relocation {
    /// A call relocation. Its kind comes from the encodings of the caller
    /// and the callee.
    pub fn new_call(from: u32, to: u32, module: RelocationModule, from_thumb: bool, to_thumb:
        bool) -> (r: Relocation)
        ensures
            r@.from == from,
            r@.to == to,
            r@.kind == call_kind(from_thumb, to_thumb),
            r@.module == module@,
    {
        let kind = if from_thumb {
            if to_thumb {
                RelocationKind::ThumbCall
            } else {
                RelocationKind::ThumbCallArm
            }
        } else {
            if to_thumb {
                RelocationKind::ArmCallThumb
            } else {
                RelocationKind::ArmCall
            }
        };
        Relocation { from, to, kind, module }
    }

    /// A load relocation.
    pub fn new_load(from: u32, to: u32, module: RelocationModule) -> (r: Relocation)
        ensures
            r@.from == from,
            r@.to == to,
            r@.kind == RelocationKind::Load,
            r@.module == module@,
    {
        Relocation { from, to, kind: RelocationKind::Load, module }
    }

    /// A relocation from its four fields.
    pub(crate) fn assemble(from: u32, to: u32, kind: RelocationKind, module: RelocationModule)
        -> (r: Relocation)
        ensures
            r@ == (RelocationView { from, to, kind, module: module@ }),
    {
        Relocation { from, to, kind, module }
    }

    /// The source address.
    pub fn from_address(&self) -> (a: u32)
        ensures
            a == self@.from,
    {
        self.from
    }

    /// The target address.
    pub fn to_address(&self) -> (a: u32)
        ensures
            a == self@.to,
    {
        self.to
    }

    /// The rewrite kind.
    pub fn kind(&self) -> (k: RelocationKind)
        ensures
            k == self@.kind,
    {
        self.kind
    }

    /// The target module or modules.
    pub fn module(&self) -> (m: &RelocationModule)
        ensures
            m@ == self@.module,
    {
        &self.module
    }
}

/// Whether two u16 vectors hold the same numbers.
fn ids_eq(a: &Vec<u16>, b: &Vec<u16>) -> (r: bool)
    ensures
        r == (a@ == b@),
{
    if a.len() != b.len() {
        return false;
    }
    let mut i: usize = 0;
    while i < a.len()
        invariant
            0 <= i <= a.len(),
            a@.len() == b@.len(),
            forall|j: int| 0 <= j < i ==> a@[j] == b@[j],
        decreases a.len() - i,
    {
        if a[i] != b[i] {
            return false;
        }
        i += 1;
    }
    proof {
        assert(a@ =~= b@);
    }
    true
}

/// Whether two module targets are the same.
pub fn module_eq(a: &RelocationModule, b: &RelocationModule) -> (r: bool)
    ensures
        r == (a@ == b@),
{
    match (a, b) {
        (RelocationModule::NoTarget, RelocationModule::NoTarget) => true,
        (RelocationModule::Main, RelocationModule::Main) => true,
        (RelocationModule::Itcm, RelocationModule::Itcm) => true,
        (RelocationModule::Dtcm, RelocationModule::Dtcm) => true,
        (RelocationModule::Overlay { id: x }, RelocationModule::Overlay { id: y }) => x == y,
        (RelocationModule::Overlays { ids: x }, RelocationModule::Overlays { ids: y }) => ids_eq(
            x,
            y,
        ),
        _ => false,
    }
}

/// Whether two relocations are the same in every field.
pub fn reloc_eq(a: &Relocation, b: &Relocation) -> (r: bool)
    ensures
        r == (a@ == b@),
{
    a.from == b.from && a.to == b.to && a.kind == b.kind && module_eq(&a.module, &b.module)
}

/// The entry with the given source address, first one found.
pub open spec fn find_from(s: Seq<RelocationView>, from: u32) -> Option<RelocationView>
    decreases s.len(),
{
    if s.len() == 0 {
        None
    } else if s.first().from == from {
        Some(s.first())
    } else {
        find_from(s.drop_first(), from)
    }
}

/// Where an entry with the given source address belongs: the number of
/// entries that precede it.
pub open spec fn insert_pos(s: Seq<RelocationView>, from: u32) -> int
    decreases s.len(),
{
    if s.len() == 0 {
        0
    } else if s.first().from < from {
        1 + insert_pos(s.drop_first(), from)
    } else {
        0
    }
}

/// The index of the entry with the given source address, or the length of
/// the table when there is none.
pub open spec fn index_of_from(s: Seq<RelocationView>, from: u32) -> int
    decreases s.len(),
{
    if s.len() == 0 {
        0
    } else if s.first().from == from {
        0
    } else {
        1 + index_of_from(s.drop_first(), from)
    }
}

/// The table with `r` set at its source address: replacing the entry
/// already there, or inserted in address order.
pub open spec fn set_entry(s: Seq<RelocationView>, r: RelocationView) -> Seq<RelocationView> {
    if find_from(s, r.from) is Some {
        s.update(index_of_from(s, r.from), r)
    } else {
        s.insert(insert_pos(s, r.from), r)
    }
}

/// The table entries in strictly increasing source-address order.
pub open spec fn sorted_strict(s: Seq<RelocationView>) -> bool {
    forall|i: int, j: int| 0 <= i < j < s.len() ==> s[i].from < s[j].from
}

/// `part` is the contiguous run of `table` starting at `a` that holds
/// exactly the entries with source address in `[lo, hi)`.
pub open spec fn range_block_at(
    table: Seq<RelocationView>,
    part: Seq<Relocation>,
    a: int,
    lo: u32,
    hi: u32,
) -> bool {
    &&& 0 <= a <= table.len() - part.len()
    &&& forall|k: int| 0 <= k < part.len() ==> #[trigger] part[k]@ == table[a + k]
    &&& forall|k: int| 0 <= k < a ==> #[trigger] table[k].from < lo
    &&& forall|k: int|
        a + part.len() <= k < table.len() ==> !(lo <= #[trigger] table[k].from < hi)
}

/// The table after adding `r`: unchanged when its source address is taken,
/// else with `r` in address order.
pub open spec fn add_table(s: Seq<RelocationView>, r: RelocationView) -> Seq<RelocationView> {
    if find_from(s, r.from) is Some {
        s
    } else {
        s.insert(insert_pos(s, r.from), r)
    }
}

/// Whether adding `r` succeeds: the address is free, or its entry is `r`.
pub open spec fn add_ok(s: Seq<RelocationView>, r: RelocationView) -> bool {
    match find_from(s, r.from) {
        None => true,
        Some(e) => e == r,
    }
}

/// The table after adding each of `rs` in order, and whether every add
/// succeeded. The first collision stops the adds.
pub open spec fn extend_table(s: Seq<RelocationView>, rs: Seq<RelocationView>) -> (
    Seq<RelocationView>,
    bool,
)
    decreases rs.len(),
{
    if rs.len() == 0 {
        (s, true)
    } else if add_ok(s, rs.first()) {
        extend_table(add_table(s, rs.first()), rs.drop_first())
    } else {
        (s, false)
    }
}

/// `insert_pos` splits a sorted table at the given address: smaller
/// addresses before it, larger ones at or after it.
proof fn lemma_insert_pos(s: Seq<RelocationView>, from: u32)
    requires
        sorted_strict(s),
    ensures
        0 <= insert_pos(s, from) <= s.len(),
        forall|k: int| 0 <= k < insert_pos(s, from) ==> s[k].from < from,
        forall|k: int| insert_pos(s, from) <= k < s.len() ==> s[k].from >= from,
    decreases s.len(),
{
    if s.len() > 0 {
        let t = s.drop_first();
        assert(forall|k: int| 0 <= k < t.len() ==> #[trigger] t[k] == s[k + 1]);
        assert forall|i: int, j: int| 0 <= i < j < t.len() implies t[i].from < t[j].from by {
            assert(t[i] == s[i + 1]);
            assert(t[j] == s[j + 1]);
        }
        lemma_insert_pos(t, from);
        let p = insert_pos(s, from);
        if s.first().from < from {
            assert(p == 1 + insert_pos(t, from));
            assert forall|k: int| 0 <= k < p implies s[k].from < from by {
                if k > 0 {
                    assert(t[k - 1] == s[k]);
                    assert(t[k - 1].from < from);
                }
            }
            assert forall|k: int| p <= k < s.len() implies s[k].from >= from by {
                assert(t[k - 1] == s[k]);
                assert(t[k - 1].from >= from);
            }
        } else {
            assert(p == 0);
            assert forall|k: int| 0 <= k < s.len() implies s[k].from >= from by {
                if k > 0 {
                    assert(s[0].from < s[k].from);
                }
            }
        }
    }
}

/// In a sorted table, finding an address and having an entry with it are
/// the same thing, and the entry found is the one with that address.
proof fn lemma_find_from(s: Seq<RelocationView>, from: u32)
    requires
        sorted_strict(s),
    ensures
        match find_from(s, from) {
            Some(e) => e.from == from && exists|i: int|
                0 <= i < s.len() && s[i] == e && s[i].from == from,
            None => forall|i: int| 0 <= i < s.len() ==> s[i].from != from,
        },
    decreases s.len(),
{
    if s.len() > 0 {
        let t = s.drop_first();
        assert(forall|k: int| 0 <= k < t.len() ==> #[trigger] t[k] == s[k + 1]);
        assert forall|i: int, j: int| 0 <= i < j < t.len() implies t[i].from < t[j].from by {
            assert(t[i] == s[i + 1]);
            assert(t[j] == s[j + 1]);
        }
        lemma_find_from(t, from);
        if s.first().from == from {
            assert(s[0] == s.first());
            assert(0 <= 0 < s.len() && s[0] == find_from(s, from)->Some_0 && s[0].from == from);
        } else {
            match find_from(t, from) {
                Some(e) => {
                    let i = choose|i: int| 0 <= i < t.len() && t[i] == e && t[i].from == from;
                    assert(t[i] == s[i + 1]);
                    assert(0 <= i + 1 < s.len() && s[i + 1] == e && s[i + 1].from == from);
                },
                None => {
                    assert forall|i: int| 0 <= i < s.len() implies s[i].from != from by {
                        if i > 0 {
                            assert(t[i - 1] == s[i]);
                            assert(t[i - 1].from != from);
                        }
                    }
                },
            }
        }
    }
}

/// Adding to a sorted table keeps it sorted, keeps every entry, and makes
/// the added address map to the added entry: iteration in source-address
/// order survives every add.
pub proof fn lemma_add_table(s: Seq<RelocationView>, r: RelocationView)
    requires
        sorted_strict(s),
    ensures
        sorted_strict(add_table(s, r)),
        find_from(add_table(s, r), r.from) is Some,
        find_from(s, r.from) is None ==> find_from(add_table(s, r), r.from) == Some(r),
{
    lemma_find_from(s, r.from);
    if find_from(s, r.from) is Some {
    } else {
        let p = insert_pos(s, r.from);
        lemma_insert_pos(s, r.from);
        let t = s.insert(p, r);
        assert(forall|k: int| 0 <= k < p ==> t[k] == s[k]);
        assert(t[p] == r);
        assert(forall|k: int| p < k < t.len() ==> t[k] == s[k - 1]);
        assert(forall|k: int| p <= k < s.len() ==> s[k].from > r.from) by {
            assert(forall|k: int| p <= k < s.len() ==> s[k].from >= r.from && s[k].from
                != r.from);
        }
        assert(sorted_strict(t));
        lemma_find_from(t, r.from);
        assert(find_from(t, r.from) is Some) by {
            lemma_find_from(t, r.from);
            assert(t[p].from == r.from);
            if find_from(t, r.from) is None {
                assert(t[p].from != r.from);
            }
        }
        let e = find_from(t, r.from)->Some_0;
        let i = choose|i: int| 0 <= i < t.len() && t[i] == e && t[i].from == r.from;
        assert(i == p) by {
            if i < p {
                assert(t[i] == s[i]);
            }
            if i > p {
                assert(t[i] == s[i - 1]);
            }
        }
    }
}

/// Adding the same relocation a second time leaves the table exactly as
/// the first add left it, and the second add reports a duplicate.
pub proof fn lemma_add_idempotent(s: Seq<RelocationView>, r: RelocationView)
    requires
        sorted_strict(s),
        add_ok(s, r),
    ensures
        add_table(add_table(s, r), r) == add_table(s, r),
        find_from(add_table(s, r), r.from) == Some(r),
{
    lemma_add_table(s, r);
    if find_from(s, r.from) is Some {
        assert(find_from(s, r.from) == Some(r));
    }
}

/// `index_of_from` points at the entry with the given address when there
/// is one, and past the end when there is none.
proof fn lemma_index_of_from(s: Seq<RelocationView>, from: u32)
    requires
        sorted_strict(s),
    ensures
        find_from(s, from) is Some ==> 0 <= index_of_from(s, from) < s.len() && s[index_of_from(
            s,
            from,
        )].from == from && s[index_of_from(s, from)] == find_from(s, from)->Some_0,
        find_from(s, from) is None ==> index_of_from(s, from) == s.len(),
    decreases s.len(),
{
    if s.len() > 0 {
        let t = s.drop_first();
        assert(forall|k: int| 0 <= k < t.len() ==> #[trigger] t[k] == s[k + 1]);
        assert forall|i: int, j: int| 0 <= i < j < t.len() implies t[i].from < t[j].from by {
            assert(t[i] == s[i + 1]);
            assert(t[j] == s[j + 1]);
        }
        lemma_index_of_from(t, from);
        if s.first().from != from {
            if find_from(t, from) is Some {
                assert(s[index_of_from(t, from) + 1] == t[index_of_from(t, from)]);
            }
        }
    }
}

/// Setting an entry keeps a sorted table sorted.
proof fn lemma_set_entry_sorted(s: Seq<RelocationView>, r: RelocationView)
    requires
        sorted_strict(s),
    ensures
        sorted_strict(set_entry(s, r)),
{
    if find_from(s, r.from) is Some {
        lemma_index_of_from(s, r.from);
        let i = index_of_from(s, r.from);
        let t = s.update(i, r);
        assert forall|a: int, b: int| 0 <= a < b < t.len() implies t[a].from < t[b].from by {
            assert(t[i].from == s[i].from);
            if a != i {
                assert(t[a] == s[a]);
            }
            if b != i {
                assert(t[b] == s[b]);
            }
        }
    } else {
        lemma_add_table(s, r);
        assert(set_entry(s, r) == add_table(s, r));
    }
}

/// The outcome of a successful add.
#[derive(Clone, Copy, Debug, PartialEq, Eq, Structural)]
pub enum AddOutcome {
    /// The relocation was new and went into the table.
    Inserted,
    /// An identical relocation was already there; the table is unchanged.
    Duplicate,
}

/// What went wrong with a relocation operation.
#[derive(Clone, Copy, Debug, PartialEq, Eq, Structural)]
pub enum RelocationError {
    /// Two different relocations claim the same source address.
    Collision { from: u32 },
    /// A target would span modules that are not all overlays.
    MixedTarget,
    /// An autoload of unknown role cannot be a relocation target.
    UnknownAutoload,
}

/// An ordered, de-duplicated table of relocations, keyed by source address.
pub struct Relocations {
    entries: Vec<Relocation>,
}

impl View for Relocations {
    type V = Seq<RelocationView>;

    closed spec fn view(&self) -> Seq<RelocationView> {
        Seq::new(self.entries@.len(), |i: int| self.entries@[i]@)
    }
}

impl Relocations {
    /// The table is well formed: entries in strictly increasing source-
    /// address order.
    pub open spec fn wf(&self) -> bool {
        sorted_strict(self@)
    }

    /// An empty table.
    pub fn new() -> (r: Relocations)
        ensures
            r@ =~= Seq::<RelocationView>::empty(),
            r.wf(),
    {
        Relocations { entries: Vec::new() }
    }

    /// Insert a relocation at its source address. A relocation equal to the
    /// one already at that address is dropped and reported as a duplicate;
    /// a different one at the same address is a collision and changes
    /// nothing.
    pub fn add(&mut self, relocation: Relocation) -> (res: Result<AddOutcome, RelocationError>)
        requires
            old(self).wf(),
        ensures
            final(self).wf(),
            final(self)@ == add_table(old(self)@, relocation@),
            res == if find_from(old(self)@, relocation@.from) is Some {
                if find_from(old(self)@, relocation@.from) == Some(relocation@) {
                    Result::<AddOutcome, RelocationError>::Ok(AddOutcome::Duplicate)
                } else {
                    Result::<AddOutcome, RelocationError>::Err(RelocationError::Collision {
                        from: relocation@.from,
                    })
                }
            } else {
                Result::<AddOutcome, RelocationError>::Ok(AddOutcome::Inserted)
            },
    {
        proof {
            lemma_insert_pos(self@, relocation@.from);
            lemma_find_from(self@, relocation@.from);
            lemma_add_table(self@, relocation@);
        }
        let mut i: usize = 0;
        while i < self.entries.len() && self.entries[i].from < relocation.from
            invariant
                0 <= i <= self.entries@.len(),
                forall|k: int| 0 <= k < i ==> self@[k].from < relocation@.from,
            decreases self.entries@.len() - i,
        {
            i += 1;
        }
        let ghost p = insert_pos(self@, relocation@.from);
        proof {
            assert(i == p) by {
                if i < self.entries@.len() {
                    assert(self@[i as int].from >= relocation@.from);
                }
                if (i as int) < p {
                    assert(self@[i as int].from < relocation@.from);
                }
                if (i as int) > p {
                    assert(self@[p].from >= relocation@.from);
                    assert(self@[p].from < relocation@.from);
                }
            }
        }
        if i < self.entries.len() && self.entries[i].from == relocation.from {
            proof {
                assert(find_from(self@, relocation@.from) is Some) by {
                    lemma_find_from(self@, relocation@.from);
                    if find_from(self@, relocation@.from) is None {
                        assert(self@[i as int].from != relocation@.from);
                    }
                }
                let e = find_from(self@, relocation@.from)->Some_0;
                let k = choose|k: int|
                    0 <= k < self@.len() && self@[k] == e && self@[k].from == relocation@.from;
                assert(k == i) by {
                    if k < i {
                        assert(self@[k].from < relocation@.from);
                    }
                    if k > i {
                        assert(self@[i as int].from < self@[k].from);
                    }
                }
            }
            if reloc_eq(&self.entries[i], &relocation) {
                Ok(AddOutcome::Duplicate)
            } else {
                Err(RelocationError::Collision { from: relocation.from })
            }
        } else {
            proof {
                assert(find_from(self@, relocation@.from) is None) by {
                    lemma_find_from(self@, relocation@.from);
                    if find_from(self@, relocation@.from) is Some {
                        let e = find_from(self@, relocation@.from)->Some_0;
                        let k = choose|k: int|
                            0 <= k < self@.len() && self@[k] == e && self@[k].from
                                == relocation@.from;
                        if k < i {
                            assert(self@[k].from < relocation@.from);
                        }
                        if k >= i {
                            assert(self@[k].from >= relocation@.from);
                            if i < self.entries@.len() && k == i {
                                assert(self@[k].from != relocation@.from);
                            }
                            if k > i {
                                assert(i < self.entries@.len());
                                assert(self@[i as int].from >= relocation@.from);
                                assert(self@[i as int].from < self@[k].from);
                            }
                        }
                    }
                }
            }
            let ghost s_old = self@;
            let ghost r_view = relocation@;
            self.entries.insert(i, relocation);
            proof {
                assert(self@ =~= s_old.insert(p, r_view)) by {
                    assert(self.entries@ == old(self).entries@.insert(i as int, relocation));
                    assert(forall|k: int| 0 <= k < p ==> self.entries@[k] == old(
                        self,
                    ).entries@[k]);
                    assert(forall|k: int|
                        p < k < self.entries@.len() ==> self.entries@[k] == old(
                            self,
                        ).entries@[k - 1]);
                    assert(self.entries@[p] == relocation);
                }
            }
            Ok(AddOutcome::Inserted)
        }
    }

    /// Set a relocation at its source address, replacing whatever entry
    /// was there.
    pub fn put(&mut self, relocation: Relocation)
        requires
            old(self).wf(),
        ensures
            final(self).wf(),
            final(self)@ == set_entry(old(self)@, relocation@),
    {
        proof {
            lemma_insert_pos(self@, relocation@.from);
            lemma_find_from(self@, relocation@.from);
            lemma_index_of_from(self@, relocation@.from);
            lemma_set_entry_sorted(self@, relocation@);
        }
        let mut i: usize = 0;
        while i < self.entries.len() && self.entries[i].from < relocation.from
            invariant
                0 <= i <= self.entries@.len(),
                forall|k: int| 0 <= k < i ==> self@[k].from < relocation@.from,
            decreases self.entries@.len() - i,
        {
            i += 1;
        }
        let ghost p = insert_pos(self@, relocation@.from);
        proof {
            assert(i == p) by {
                if i < self.entries@.len() {
                    assert(self@[i as int].from >= relocation@.from);
                }
                if (i as int) < p {
                    assert(self@[i as int].from < relocation@.from);
                }
                if (i as int) > p {
                    assert(self@[p].from >= relocation@.from);
                    assert(self@[p].from < relocation@.from);
                }
            }
        }
        if i < self.entries.len() && self.entries[i].from == relocation.from {
            proof {
                assert(find_from(self@, relocation@.from) is Some) by {
                    if find_from(self@, relocation@.from) is None {
                        assert(index_of_from(self@, relocation@.from) == self@.len());
                        assert(self@[i as int].from == relocation@.from);
                        assert(forall|k: int|
                            0 <= k < self@.len() ==> #[trigger] self@[k].from
                                != relocation@.from) by {
                            lemma_find_from(self@, relocation@.from);
                        }
                    }
                }
                let ix = index_of_from(self@, relocation@.from);
                assert(ix == i) by {
                    if ix < i {
                        assert(self@[ix].from < relocation@.from);
                    }
                    if ix > i {
                        assert(self@[i as int].from < self@[ix].from);
                    }
                }
            }
            let ghost s_old = self@;
            let ghost r_view = relocation@;
            self.entries.remove(i);
            self.entries.insert(i, relocation);
            proof {
                assert(self@ =~= s_old.update(i as int, r_view)) by {
                    assert(self.entries@ == old(self).entries@.remove(i as int).insert(
                        i as int,
                        relocation,
                    ));
                    assert(forall|k: int|
                        0 <= k < i ==> self.entries@[k] == old(self).entries@[k]);
                    assert(forall|k: int|
                        i < k < self.entries@.len() ==> self.entries@[k] == old(
                            self,
                        ).entries@[k]);
                    assert(self.entries@[i as int] == relocation);
                }
            }
        } else {
            proof {
                assert(find_from(self@, relocation@.from) is None) by {
                    if find_from(self@, relocation@.from) is Some {
                        let e = find_from(self@, relocation@.from)->Some_0;
                        let k = choose|k: int|
                            0 <= k < self@.len() && self@[k] == e && self@[k].from
                                == relocation@.from;
                        if k < i {
                            assert(self@[k].from < relocation@.from);
                        }
                        if k >= i {
                            assert(self@[k].from >= relocation@.from);
                            if i < self.entries@.len() && k == i {
                                assert(self@[k].from != relocation@.from);
                            }
                            if k > i {
                                assert(i < self.entries@.len());
                                assert(self@[i as int].from >= relocation@.from);
                                assert(self@[i as int].from < self@[k].from);
                            }
                        }
                    }
                }
            }
            let ghost s_old = self@;
            let ghost r_view = relocation@;
            self.entries.insert(i, relocation);
            proof {
                assert(self@ =~= s_old.insert(p, r_view)) by {
                    assert(self.entries@ == old(self).entries@.insert(i as int, relocation));
                    assert(forall|k: int| 0 <= k < p ==> self.entries@[k] == old(
                        self,
                    ).entries@[k]);
                    assert(forall|k: int|
                        p < k < self.entries@.len() ==> self.entries@[k] == old(
                            self,
                        ).entries@[k - 1]);
                    assert(self.entries@[p] == relocation);
                }
            }
        }
    }

    /// Insert a call relocation built from the encodings of its two ends.
    pub fn add_call(&mut self, from: u32, to: u32, module: RelocationModule, from_thumb: bool,
        to_thumb: bool) -> (res: Result<AddOutcome, RelocationError>)
        requires
            old(self).wf(),
        ensures
            final(self).wf(),
            final(self)@ == add_table(
                old(self)@,
                RelocationView {
                    from,
                    to,
                    kind: call_kind(from_thumb, to_thumb),
                    module: module@,
                },
            ),
            res is Ok <==> add_ok(
                old(self)@,
                RelocationView {
                    from,
                    to,
                    kind: call_kind(from_thumb, to_thumb),
                    module: module@,
                },
            ),
    {
        let r = Relocation::new_call(from, to, module, from_thumb, to_thumb);
        let res = self.add(r);
        res
    }

    /// Insert a load relocation.
    pub fn add_load(&mut self, from: u32, to: u32, module: RelocationModule) -> (res: Result<
        AddOutcome,
        RelocationError,
    >)
        requires
            old(self).wf(),
        ensures
            final(self).wf(),
            final(self)@ == add_table(
                old(self)@,
                RelocationView { from, to, kind: RelocationKind::Load, module: module@ },
            ),
            res is Ok <==> add_ok(
                old(self)@,
                RelocationView { from, to, kind: RelocationKind::Load, module: module@ },
            ),
    {
        let r = Relocation::new_load(from, to, module);
        let res = self.add(r);
        res
    }

    /// Add every relocation of `rs` in order; the first collision stops the
    /// adds and is returned.
    pub fn extend(&mut self, relocations: Vec<Relocation>) -> (res: Result<(), RelocationError>)
        requires
            old(self).wf(),
        ensures
            final(self).wf(),
            final(self)@ == extend_table(old(self)@, relocations.deep_view()).0,
            res is Ok <==> extend_table(old(self)@, relocations.deep_view()).1,
    {
        let ghost rs = relocations.deep_view();
        let mut i: usize = 0;
        let n = relocations.len();
        proof {
            assert(rs.skip(0) =~= rs);
        }
        while i < n
            invariant
                0 <= i <= n == relocations@.len(),
                rs == relocations.deep_view(),
                self.wf(),
                extend_table(old(self)@, rs) == extend_table(self@, rs.skip(i as int)),
            decreases n - i,
        {
            let ghost s_cur = self@;
            let ghost tail = rs.skip(i as int);
            proof {
                assert(tail.first() == relocations@[i as int]@) by {
                    assert(rs[i as int] == relocations@[i as int].deep_view());
                    assert(relocations@[i as int].deep_view() =~~= relocations@[i as int]@)
                        by {
                        reloc_deep_view_is_view(relocations@[i as int]);
                    }
                }
                assert(tail.drop_first() =~= rs.skip(i as int + 1));
            }
            let res = self.add(relocations[i].clone_entry());
            match res {
                Ok(_) => {
                    proof {
                        assert(add_ok(s_cur, tail.first()));
                        assert(extend_table(s_cur, tail) == extend_table(
                            self@,
                            rs.skip(i as int + 1),
                        ));
                    }
                },
                Err(e) => {
                    proof {
                        assert(!add_ok(s_cur, tail.first()));
                        assert(extend_table(s_cur, tail) == (s_cur, false));
                        assert(self@ == s_cur);
                    }
                    return Err(e);
                },
            }
            i += 1;
        }
        proof {
            assert(rs.skip(n as int) =~= Seq::<RelocationView>::empty());
        }
        Ok(())
    }

    /// The relocation at the given source address, if any.
    pub fn get(&self, from: u32) -> (res: Option<&Relocation>)
        requires
            self.wf(),
        ensures
            match res {
                Some(e) => find_from(self@, from) == Some(e@),
                None => find_from(self@, from) is None,
            },
    {
        proof {
            lemma_find_from(self@, from);
        }
        let mut i: usize = 0;
        while i < self.entries.len()
            invariant
                0 <= i <= self.entries@.len(),
                self.wf(),
                forall|k: int| 0 <= k < i ==> self@[k].from != from,
            decreases self.entries@.len() - i,
        {
            if self.entries[i].from == from {
                proof {
                    lemma_find_from(self@, from);
                    if find_from(self@, from) is None {
                        assert(self@[i as int].from != from);
                    }
                    let e = find_from(self@, from)->Some_0;
                    let k = choose|k: int|
                        0 <= k < self@.len() && self@[k] == e && self@[k].from == from;
                    assert(k == i) by {
                        if k < i {
                            assert(self@[k].from != from);
                        }
                        if k > i {
                            assert(self@[i as int].from < self@[k].from);
                        }
                    }
                }
                return Some(&self.entries[i]);
            }
            i += 1;
        }
        proof {
            lemma_find_from(self@, from);
            if find_from(self@, from) is Some {
                let e = find_from(self@, from)->Some_0;
                let k = choose|k: int|
                    0 <= k < self@.len() && self@[k] == e && self@[k].from == from;
                assert(self@[k].from != from);
            }
        }
        None
    }

    /// The entries of the table, in strictly increasing source-address
    /// order.
    pub fn iter(&self) -> (r: &Vec<Relocation>)
        requires
            self.wf(),
        ensures
            r@.len() == self@.len(),
            forall|k: int| 0 <= k < r@.len() ==> #[trigger] r@[k]@ == self@[k],
            forall|i: int, j: int|
                0 <= i < j < r@.len() ==> #[trigger] r@[i]@.from < #[trigger] r@[j]@.from,
    {
        proof {
            assert forall|i: int, j: int|
                0 <= i < j < self.entries@.len() implies #[trigger] self.entries@[i]@.from
                < #[trigger] self.entries@[j]@.from by {
                assert(self@[i] == self.entries@[i]@);
                assert(self@[j] == self.entries@[j]@);
            }
        }
        &self.entries
    }

    /// The entries whose source address lies in `[lo, hi)`, in order: one
    /// contiguous run of the table.
    pub fn iter_range(&self, lo: u32, hi: u32) -> (r: &[Relocation])
        requires
            self.wf(),
        ensures
            forall|k: int|
                0 <= k < r@.len() ==> lo <= #[trigger] r@[k]@.from < hi,
            exists|a: int| range_block_at(self@, r@, a, lo, hi),
    {
        let n = self.entries.len();
        let mut a: usize = 0;
        while a < n && self.entries[a].from < lo
            invariant
                0 <= a <= n == self.entries@.len(),
                self.wf(),
                forall|k: int| 0 <= k < a ==> #[trigger] self@[k].from < lo,
            decreases n - a,
        {
            a += 1;
        }
        let mut b: usize = a;
        while b < n && self.entries[b].from < hi
            invariant
                a <= b <= n == self.entries@.len(),
                self.wf(),
                a == n || self@[a as int].from >= lo,
                forall|k: int| 0 <= k < a ==> #[trigger] self@[k].from < lo,
                forall|k: int| a <= k < b ==> lo <= #[trigger] self@[k].from < hi,
            decreases n - b,
        {
            proof {
                assert(lo <= self@[b as int].from) by {
                    if (a as int) < b {
                        assert(self@[a as int].from < self@[b as int].from);
                    }
                }
            }
            b += 1;
        }
        let r = vstd::slice::slice_subrange(self.entries.as_slice(), a, b);
        proof {
            assert(forall|k: int| 0 <= k < r@.len() ==> r@[k] == self.entries@[a + k]);
            assert(forall|k: int|
                a + r@.len() <= k < self@.len() ==> !(lo <= #[trigger] self@[k].from < hi)) by {
                if b < self@.len() {
                    assert(forall|k: int|
                        b < k < self@.len() ==> self@[b as int].from < #[trigger] self@[k].from);
                }
            }
            assert(0 <= a as int <= self@.len() - r@.len());
            assert(forall|k: int| 0 <= k < r@.len() ==> #[trigger] r@[k]@ == self@[a + k]);
            assert(range_block_at(self@, r@, a as int, lo, hi));
        }
        r
    }
}

/// The deep view of a relocation is its view.
proof fn reloc_deep_view_is_view(r: Relocation)
    ensures
        r.deep_view() =~~= r@,
{
}

impl DeepView for Relocation {
    type V = RelocationView;

    closed spec fn deep_view(&self) -> RelocationView {
        self@
    }
}

impl Relocation {
    /// A field-for-field copy of this relocation.
    pub fn clone_entry(&self) -> (r: Relocation)
        ensures
            r@ == self@,
    {
        let module = match &self.module {
            RelocationModule::NoTarget => RelocationModule::NoTarget,
            RelocationModule::Main => RelocationModule::Main,
            RelocationModule::Itcm => RelocationModule::Itcm,
            RelocationModule::Dtcm => RelocationModule::Dtcm,
            RelocationModule::Overlay { id } => RelocationModule::Overlay { id: *id },
            RelocationModule::Overlays { ids } => {
                let mut v: Vec<u16> = Vec::new();
                let mut i: usize = 0;
                while i < ids.len()
                    invariant
                        0 <= i <= ids@.len(),
                        v@ == ids@.subrange(0, i as int),
                    decreases ids@.len() - i,
                {
                    v.push(ids[i]);
                    proof {
                        assert(ids@.subrange(0, i as int + 1) =~= ids@.subrange(
                            0,
                            i as int,
                        ).push(ids@[i as int]));
                    }
                    i += 1;
                }
                proof {
                    assert(v@ =~= ids@);
                }
                RelocationModule::Overlays { ids: v }
            },
        };
        Relocation { from: self.from, to: self.to, kind: self.kind, module }
    }
}

/// The minimal target for a set of candidate modules: nothing, one module,
/// or a set of overlays. Several modules are allowed only when every one is
/// an overlay.
pub open spec fn from_modules_spec(kinds: Seq<ModuleKind>) -> Result<ModuleView, RelocationError>
{
    if kinds.len() == 0 {
        Ok(ModuleView::NoTarget)
    } else {
        match kinds[0] {
            ModuleKind::Arm9 => if kinds.len() == 1 {
                Ok(ModuleView::Main)
            } else {
                Err(RelocationError::MixedTarget)
            },
            ModuleKind::Autoload(AutoloadKind::Itcm) => if kinds.len() == 1 {
                Ok(ModuleView::Itcm)
            } else {
                Err(RelocationError::MixedTarget)
            },
            ModuleKind::Autoload(AutoloadKind::Dtcm) => if kinds.len() == 1 {
                Ok(ModuleView::Dtcm)
            } else {
                Err(RelocationError::MixedTarget)
            },
            ModuleKind::Autoload(AutoloadKind::Unknown) => Err(RelocationError::UnknownAutoload),
            ModuleKind::Overlay(id) => if forall|k: int|
                0 <= k < kinds.len() ==> (#[trigger] kinds[k]) is Overlay {
                if kinds.len() > 1 {
                    Ok(ModuleView::Overlays(Seq::new(kinds.len(), |k: int| kinds[k]->Overlay_0)))
                } else {
                    Ok(ModuleView::Overlay(id))
                }
            } else {
                Err(RelocationError::MixedTarget)
            },
        }
    }
}

impl RelocationModule {
    /// The minimal target for candidate modules resolved from an address.
    pub fn from_modules(kinds: &Vec<ModuleKind>) -> (res: Result<
        RelocationModule,
        RelocationError,
    >)
        ensures
            match res {
                Ok(m) => from_modules_spec(kinds@) == Result::<
                    ModuleView,
                    RelocationError,
                >::Ok(m@) && module_valid(m@),
                Err(e) => from_modules_spec(kinds@) == Result::<
                    ModuleView,
                    RelocationError,
                >::Err(e),
            },
    {
        if kinds.len() == 0 {
            return Ok(RelocationModule::NoTarget);
        }
        match kinds[0] {
            ModuleKind::Arm9 => if kinds.len() == 1 {
                Ok(RelocationModule::Main)
            } else {
                Err(RelocationError::MixedTarget)
            },
            ModuleKind::Autoload(AutoloadKind::Itcm) => if kinds.len() == 1 {
                Ok(RelocationModule::Itcm)
            } else {
                Err(RelocationError::MixedTarget)
            },
            ModuleKind::Autoload(AutoloadKind::Dtcm) => if kinds.len() == 1 {
                Ok(RelocationModule::Dtcm)
            } else {
                Err(RelocationError::MixedTarget)
            },
            ModuleKind::Autoload(AutoloadKind::Unknown) => Err(RelocationError::UnknownAutoload),
            ModuleKind::Overlay(id) => {
                let mut ids: Vec<u16> = Vec::new();
                let mut i: usize = 0;
                while i < kinds.len()
                    invariant
                        0 <= i <= kinds@.len(),
                        kinds@.len() > 0,
                        kinds@[0] is Overlay,
                        forall|k: int| 0 <= k < i ==> (#[trigger] kinds@[k]) is Overlay,
                        ids@.len() == i,
                        forall|k: int| 0 <= k < i ==> ids@[k] == kinds@[k]->Overlay_0,
                    decreases kinds@.len() - i,
                {
                    match kinds[i] {
                        ModuleKind::Overlay(o) => {
                            ids.push(o);
                        },
                        _ => {
                            proof {
                                assert(!(forall|k: int|
                                    0 <= k < kinds@.len() ==> (#[trigger] kinds@[k])
                                        is Overlay)) by {
                                    assert(!(kinds@[i as int] is Overlay));
                                }
                            }
                            return Err(RelocationError::MixedTarget);
                        },
                    }
                    i += 1;
                }
                if ids.len() > 1 {
                    proof {
                        assert(ids@ =~= Seq::new(kinds@.len(), |k: int| kinds@[k]->Overlay_0));
                    }
                    Ok(RelocationModule::Overlays { ids })
                } else {
                    Ok(RelocationModule::Overlay { id })
                }
            },
        }
    }

    /// The first (and possibly only) module this target points to.
    pub fn first_module(&self) -> (res: Option<ModuleKind>)
        requires
            module_valid(self@),
        ensures
            match res {
                Some(k) => match self@ {
                    ModuleView::NoTarget => false,
                    ModuleView::Main => k == ModuleKind::Arm9,
                    ModuleView::Itcm => k == ModuleKind::Autoload(AutoloadKind::Itcm),
                    ModuleView::Dtcm => k == ModuleKind::Autoload(AutoloadKind::Dtcm),
                    ModuleView::Overlay(id) => k == ModuleKind::Overlay(id),
                    ModuleView::Overlays(ids) => k == ModuleKind::Overlay(ids[0]),
                },
                None => self@ is NoTarget,
            },
    {
        match self {
            RelocationModule::NoTarget => None,
            RelocationModule::Main => Some(ModuleKind::Arm9),
            RelocationModule::Itcm => Some(ModuleKind::Autoload(AutoloadKind::Itcm)),
            RelocationModule::Dtcm => Some(ModuleKind::Autoload(AutoloadKind::Dtcm)),
            RelocationModule::Overlay { id } => Some(ModuleKind::Overlay(*id)),
            RelocationModule::Overlays { ids } => Some(ModuleKind::Overlay(ids[0])),
        }
    }

    /// All modules other than the first that this target points to: only an
    /// ambiguous overlay target has any.
    pub fn other_modules(&self) -> (res: Option<Vec<ModuleKind>>)
        requires
            module_valid(self@),
        ensures
            match res {
                Some(ks) => {
                    &&& self@ is Overlays
                    &&& ks@.len() == self@->Overlays_0.len() - 1
                    &&& forall|k: int|
                        0 <= k < ks@.len() ==> #[trigger] ks@[k] == ModuleKind::Overlay(
                            self@->Overlays_0[k + 1],
                        )
                },
                None => !(self@ is Overlays),
            },
    {
        match self {
            RelocationModule::Overlays { ids } => {
                let mut ks: Vec<ModuleKind> = Vec::new();
                let mut i: usize = 1;
                while i < ids.len()
                    invariant
                        1 <= i <= ids@.len(),
                        ks@.len() == i - 1,
                        forall|k: int|
                            0 <= k < ks@.len() ==> #[trigger] ks@[k] == ModuleKind::Overlay(
                                ids@[k + 1],
                            ),
                    decreases ids@.len() - i,
                {
                    ks.push(ModuleKind::Overlay(ids[i]));
                    i += 1;
                }
                Some(ks)
            },
            _ => None,
        }
    }
}

impl RelocationModule {
    /// The target that names exactly one module. An autoload of unknown
    /// role is corrupt input and cannot be a target.
    pub fn of_kind(value: ModuleKind) -> (res: Result<RelocationModule, RelocationError>)
        ensures
            match res {
                Ok(m) => match value {
                    ModuleKind::Arm9 => m@ == ModuleView::Main,
                    ModuleKind::Overlay(id) => m@ == ModuleView::Overlay(id),
                    ModuleKind::Autoload(AutoloadKind::Itcm) => m@ == ModuleView::Itcm,
                    ModuleKind::Autoload(AutoloadKind::Dtcm) => m@ == ModuleView::Dtcm,
                    ModuleKind::Autoload(AutoloadKind::Unknown) => false,
                },
                Err(e) => value == ModuleKind::Autoload(AutoloadKind::Unknown) && e
                    == RelocationError::UnknownAutoload,
            },
    {
        match value {
            ModuleKind::Arm9 => Ok(RelocationModule::Main),
            ModuleKind::Overlay(id) => Ok(RelocationModule::Overlay { id }),
            ModuleKind::Autoload(AutoloadKind::Itcm) => Ok(RelocationModule::Itcm),
            ModuleKind::Autoload(AutoloadKind::Dtcm) => Ok(RelocationModule::Dtcm),
            ModuleKind::Autoload(AutoloadKind::Unknown) => Err(
                RelocationError::UnknownAutoload,
            ),
        }
    }
}

} // verus!
