//! Function discovery and parsing: walking decoded instructions from a
//! candidate start to the final return, collecting internal labels and
//! literal-pool addresses, and carving the code region into functions.

use vstd::prelude::*;
use vstd::string::StringExecFns;
use vstd::string::StrSliceExecFns;
use crate::ins::{InsModel, Mnemonic, REG_PC};
use crate::oracle::{decode_of, read_instruction};
use crate::symbol::{has_symbol_at, SymbolMap};
use crate::text::{hex8, push_hex8};
use crate::reloc_text::string_of_chars;

verus! {

/// A label inside a function: the name generated for a local branch
/// destination or pool constant.
pub struct FunctionLabel {
    pub name: String,
}

/// One discovered function: a contiguous span of code with its labels.
pub struct Function<'a> {
    name: String,
    start_address: u32,
    end_address: u32,
    code_end_address: u32,
    thumb: bool,
    labels: Vec<(u32, FunctionLabel)>,
    code: &'a [u8],
}

impl<'a> Function<'a> {
    /// The invariants of a discovered function: the final return lies
    /// between start and end, the end is word-aligned, every label lies
    /// inside the function, and the code slice spans it exactly.
    pub open spec fn wf(&self) -> bool {
        &&& self.start_address_spec() <= self.code_end_address_spec() <= self.end_address_spec()
        &&& self.end_address_spec() % 4 == 0
        &&& forall|i: int|
            0 <= i < self.labels_seq().len() ==> self.start_address_spec() <= (
            #[trigger] self.labels_seq()[i]).0 < self.end_address_spec()
        &&& self.end_address_spec() - self.start_address_spec() == self.code_seq().len()
    }

    /// The label list.
    pub closed spec fn labels_seq(&self) -> Seq<(u32, FunctionLabel)> {
        self.labels@
    }

    /// The owned code bytes.
    pub closed spec fn code_seq(&self) -> Seq<u8> {
        self.code@
    }

    /// The start address.
    pub closed spec fn start_address_spec(&self) -> u32 {
        self.start_address
    }

    /// The end address, exclusive.
    pub closed spec fn end_address_spec(&self) -> u32 {
        self.end_address
    }

    /// The first byte past the final return.
    pub closed spec fn code_end_address_spec(&self) -> u32 {
        self.code_end_address
    }

    /// The name.
    pub closed spec fn name_spec(&self) -> Seq<char> {
        self.name@
    }

    /// Whether the function is Thumb code.
    pub closed spec fn thumb_spec(&self) -> bool {
        self.thumb
    }

    /// The size of the function: it equals the length of its code.
    pub fn size(&self) -> (r: u32)
        requires
            self.wf(),
        ensures
            r == self.end_address_spec() - self.start_address_spec(),
            r == self.code_seq().len(),
    {
        self.end_address - self.start_address
    }

    /// The name.
    pub fn name(&self) -> (r: &str)
        ensures
            r@ == self.name_spec(),
    {
        self.name.as_str()
    }

    /// The start address.
    pub fn start_address(&self) -> (r: u32)
        ensures
            r == self.start_address_spec(),
    {
        self.start_address
    }

    /// The end address, exclusive.
    pub fn end_address(&self) -> (r: u32)
        ensures
            r == self.end_address_spec(),
    {
        self.end_address
    }

    /// The first byte past the final return; trailing pool constants may
    /// follow it up to the end address.
    pub fn code_end_address(&self) -> (r: u32)
        ensures
            r == self.code_end_address_spec(),
    {
        self.code_end_address
    }

    /// Whether the function is Thumb code.
    pub fn is_thumb(&self) -> (r: bool)
        ensures
            r == self.thumb_spec(),
    {
        self.thumb
    }

    /// The labels of the function, keyed by address.
    pub fn labels(&self) -> (r: &Vec<(u32, FunctionLabel)>)
        ensures
            r@ == self.labels_seq(),
    {
        &self.labels
    }

    /// The code bytes of the function.
    pub fn code(&self) -> (r: &'a [u8])
        ensures
            r@ == self.code_seq(),
    {
        self.code
    }
}

/// A function paired with the symbol map of its module, ready to be
/// rendered as assembly; the rendering itself needs the decoder's display
/// machinery and lives with the program around the library.
pub struct DisplayFunction<'a> {
    pub function: &'a Function<'a>,
    pub symbol_map: &'a SymbolMap,
}

impl<'a> Function<'a> {
    /// Pair this function with its module's symbol map for rendering.
    pub fn display(&'a self, symbol_map: &'a SymbolMap) -> (r: DisplayFunction<'a>)
        ensures
            r.function == self,
            r.symbol_map == symbol_map,
    {
        DisplayFunction { function: self, symbol_map }
    }
}

/// The look-ahead guess whether code starts with a Thumb function: a
/// region shorter than one ARM word, or one whose first word does not
/// carry the ARM always-condition, is taken as Thumb.
pub open spec fn thumb_guess(code: Seq<u8>) -> bool {
    if code.len() < 4 {
        true
    } else {
        (code[3] & 0xf0) != 0xe0
    }
}

impl<'a> Function<'a> {
    /// Guess whether the code at hand begins a Thumb function.
    pub fn is_thumb_function(code: &[u8]) -> (r: bool)
        ensures
            r == thumb_guess(code@),
    {
        if code.len() < 4 {
            true
        } else {
            code[3] & 0xf0 != 0xe0
        }
    }
}

/// The first register operand of an instruction, scanning its operands in
/// order.
pub open spec fn first_reg(m: InsModel) -> Option<u8> {
    if m.arg0 is Reg {
        Some(m.arg0->reg)
    } else if m.arg1 is Reg {
        Some(m.arg1->reg)
    } else if m.arg2 is Reg {
        Some(m.arg2->reg)
    } else if m.arg3 is Reg {
        Some(m.arg3->reg)
    } else {
        None
    }
}

/// A return: an unconditional `bx`, `mov pc, ...`, `ldm` whose register
/// list holds PC, or `pop {..., pc}`.
pub open spec fn is_return_spec(m: InsModel) -> bool {
    if m.conditional {
        false
    } else if m.mnemonic == Mnemonic::Bx {
        true
    } else if m.mnemonic == Mnemonic::Mov && first_reg(m) == Some(REG_PC) {
        true
    } else if m.loads_multiple {
        ||| (m.mnemonic == Mnemonic::Ldm && m.ldm_has_pc)
        ||| (m.mnemonic == Mnemonic::Pop && m.pop_has_pc)
    } else {
        false
    }
}

/// Whether an instruction ends the function when reached outside any
/// conditional block.
pub fn is_return(m: &InsModel) -> (r: bool)
    ensures
        r == is_return_spec(*m),
{
    if m.conditional {
        return false;
    }
    if m.mnemonic == Mnemonic::Bx {
        return true;
    }
    if m.mnemonic == Mnemonic::Mov {
        let fr = match (m.arg0, m.arg1, m.arg2, m.arg3) {
            (crate::ins::Arg::Reg { reg, .. }, _, _, _) => Some(reg),
            (_, crate::ins::Arg::Reg { reg, .. }, _, _) => Some(reg),
            (_, _, crate::ins::Arg::Reg { reg, .. }, _) => Some(reg),
            (_, _, _, crate::ins::Arg::Reg { reg, .. }) => Some(reg),
            _ => None,
        };
        if fr == Some(REG_PC) {
            return true;
        }
    }
    if m.loads_multiple {
        if m.mnemonic == Mnemonic::Ldm && m.ldm_has_pc {
            return true;
        }
        if m.mnemonic == Mnemonic::Pop && m.pop_has_pc {
            return true;
        }
    }
    false
}

/// The destination of a branch instruction at `address`, when it stays in
/// the 32-bit address space.
pub open spec fn branch_dest_spec(m: InsModel, address: u32) -> Option<u32> {
    if m.mnemonic == Mnemonic::B && m.branch_dest is Some && 0 <= address
        + m.branch_dest->0 <= u32::MAX {
        Some((address + m.branch_dest->0) as u32)
    } else {
        None
    }
}

/// The destination of a branch, if the instruction is one.
pub fn is_branch(m: &InsModel, address: u32) -> (r: Option<u32>)
    ensures
        r == branch_dest_spec(*m, address),
{
    if m.mnemonic == Mnemonic::B {
        if let Some(off) = m.branch_dest {
            let dest = address as i64 + off as i64;
            if 0 <= dest && dest <= u32::MAX as i64 {
                return Some(dest as u32);
            }
        }
    }
    None
}

/// The next multiple of four at or above `x`.
pub open spec fn round_up4(x: int) -> int {
    if x % 4 == 0 {
        x
    } else {
        x + (4 - x % 4)
    }
}

/// The pool address a PC-relative `ldr` reads, when the load is not
/// post-indexed and its target is not PC: `address + offset + 8` for ARM,
/// `address + offset + 1` rounded up to a word for Thumb. Out-of-range
/// pool addresses are dropped.
pub open spec fn pool_dest_spec(m: InsModel, address: u32, thumb: bool) -> Option<u32> {
    if m.mnemonic == Mnemonic::Ldr && m.arg0 is Reg && m.arg0->reg != REG_PC && m.arg1 is Reg
        && m.arg1->deref && m.arg1->reg == REG_PC && m.arg2 is OffsetImm && !m.arg2->post_indexed
         {
        let base = address + m.arg2->value;
        let pre = if thumb {
            base + 1
        } else {
            base + 8
        };
        if pre < 0 {
            None
        } else {
            let target = if thumb {
                round_up4(pre)
            } else {
                pre
            };
            if target <= u32::MAX {
                Some(target as u32)
            } else {
                None
            }
        }
    } else {
        None
    }
}

/// The pool address of a PC-relative load, if the instruction is one.
pub fn is_pool_load(m: &InsModel, address: u32, thumb: bool) -> (r: Option<u32>)
    ensures
        r == pool_dest_spec(*m, address, thumb),
{
    if m.mnemonic != Mnemonic::Ldr {
        return None;
    }
    match (m.arg0, m.arg1, m.arg2) {
        (
            crate::ins::Arg::Reg { reg: dest, .. },
            crate::ins::Arg::Reg { reg: base, deref },
            crate::ins::Arg::OffsetImm { value, post_indexed },
        ) => {
            if dest == REG_PC || !deref || base != REG_PC || post_indexed {
                return None;
            }
            let base_addr = address as i64 + value as i64;
            let pre: i64 = if thumb {
                base_addr + 1
            } else {
                base_addr + 8
            };
            if pre < 0 {
                return None;
            }
            let target: i64 = if thumb {
                if pre % 4 == 0 {
                    pre
                } else {
                    pre + (4 - pre % 4)
                }
            } else {
                pre
            };
            if target <= u32::MAX as i64 {
                Some(target as u32)
            } else {
                None
            }
        },
        _ => None,
    }
}

/// The generated name of a local label: an underscore and the address in
/// eight hex digits.
pub fn label_name(address: u32) -> (s: String)
    ensures
        s@ == seq!['_'] + hex8(address),
{
    let mut chars: Vec<char> = Vec::new();
    chars.push('_');
    proof {
        assert(chars@ =~= Seq::<char>::empty().push('_'));
        assert(Seq::<char>::empty().push('_') =~= seq!['_']);
    }
    push_hex8(&mut chars, address);
    string_of_chars(&chars)
}

/// Record a label at an address, once: an address already labeled keeps
/// its entry, a new one gets the generated name.
fn add_label(labels: &mut Vec<(u32, FunctionLabel)>, address: u32)
    ensures
        (exists|k: int|
            0 <= k < old(labels)@.len() && (#[trigger] old(labels)@[k]).0 == address)
            ==> final(labels)@ == old(labels)@,
        !(exists|k: int|
            0 <= k < old(labels)@.len() && (#[trigger] old(labels)@[k]).0 == address) ==> {
            &&& final(labels)@.len() == old(labels)@.len() + 1
            &&& forall|i: int|
                0 <= i < old(labels)@.len() ==> (#[trigger] final(labels)@[i]) == old(
                    labels,
                )@[i]
            &&& final(labels)@[old(labels)@.len() as int].0 == address
            &&& final(labels)@[old(labels)@.len() as int].1.name@ == seq!['_'] + hex8(address)
        },
{
    let mut i: usize = 0;
    while i < labels.len()
        invariant
            0 <= i <= labels@.len(),
            labels@ == old(labels)@,
            forall|k: int| 0 <= k < i ==> (#[trigger] labels@[k]).0 != address,
        decreases labels@.len() - i,
    {
        if labels[i].0 == address {
            return ;
        }
        i += 1;
    }
    let name = label_name(address);
    labels.push((address, FunctionLabel { name }));
}

/// The largest address either tracker has seen, or -1 when neither has
/// seen any.
pub open spec fn opt_bound(a: Option<u32>, b: Option<u32>) -> int {
    let x = if a is Some {
        a->0 as int
    } else {
        -1
    };
    let y = if b is Some {
        b->0 as int
    } else {
        -1
    };
    if x >= y {
        x
    } else {
        y
    }
}

/// A tracker raised to a new target address.
pub open spec fn track_max(cur: Option<u32>, dest: u32) -> Option<u32> {
    match cur {
        Some(d) => if dest > d {
            Some(dest)
        } else {
            Some(d)
        },
        None => Some(dest),
    }
}

/// A label address recorded once.
pub open spec fn record_label(labels: Seq<u32>, dest: u32) -> Seq<u32> {
    if labels.contains(dest) {
        labels
    } else {
        labels.push(dest)
    }
}

/// The branch tracker after one instruction: raised to an in-function
/// branch destination, unchanged otherwise.
pub open spec fn step_lcd(m: InsModel, address: u32, start: u32, lcd: Option<u32>) -> Option<
    u32,
> {
    match branch_dest_spec(m, address) {
        Some(d) => if d >= start {
            track_max(lcd, d)
        } else {
            lcd
        },
        None => lcd,
    }
}

/// The labels after one instruction's branch part.
pub open spec fn step_branch_labels(m: InsModel, address: u32, start: u32, labels: Seq<u32>)
    -> Seq<u32> {
    match branch_dest_spec(m, address) {
        Some(d) => if d >= start {
            record_label(labels, d)
        } else {
            labels
        },
        None => labels,
    }
}

/// The pool tracker after one instruction.
pub open spec fn step_lp(m: InsModel, address: u32, thumb: bool, start: u32, lp: Option<u32>)
    -> Option<u32> {
    match pool_dest_spec(m, address, thumb) {
        Some(p) => if p >= start {
            track_max(lp, p)
        } else {
            lp
        },
        None => lp,
    }
}

/// The labels after one instruction's pool part.
pub open spec fn step_pool_labels(m: InsModel, address: u32, thumb: bool, start: u32, labels:
    Seq<u32>) -> Seq<u32> {
    match pool_dest_spec(m, address, thumb) {
        Some(p) => if p >= start {
            record_label(labels, p)
        } else {
            labels
        },
        None => labels,
    }
}

/// Where the walk of a function's instructions stops.
pub enum WalkStop {
    /// The decode failed, an illegal opcode appeared, or the stream ended
    /// without a return.
    Fail,
    /// An unconditional return at an address past every forward branch
    /// target seen so far ends the code.
    End { code_end: int, last_pool: Option<u32>, labels: Seq<u32> },
}

/// The instruction walk: follow the decoder from `offset`, collecting
/// in-function branch and pool labels and the furthest branch and pool
/// targets, until an unconditional return stands at or past every branch
/// target. A decode failure or an illegal opcode fails the walk.
pub open spec fn walk(
    code: Seq<u8>,
    start: u32,
    thumb: bool,
    offset: int,
    lcd: Option<u32>,
    lp: Option<u32>,
    labels: Seq<u32>,
) -> WalkStop
    decreases code.len() - offset,
{
    if !(0 <= offset <= code.len()) {
        WalkStop::Fail
    } else {
        match decode_of(code, offset, ((start + offset) as u32), thumb) {
            None => WalkStop::Fail,
            Some(t) => {
                let m = t.0;
                let size = t.1;
                if size < 1 || offset + size > code.len() {
                    WalkStop::Fail
                } else if m.op_illegal {
                    WalkStop::Fail
                } else {
                    let address = (start + offset) as u32;
                    let past = match lcd {
                        Some(d) => address >= d,
                        None => true,
                    };
                    if past && is_return_spec(m) {
                        WalkStop::End {
                            code_end: start as int + offset + size,
                            last_pool: lp,
                            labels,
                        }
                    } else {
                        walk(
                            code,
                            start,
                            thumb,
                            offset + size,
                            step_lcd(m, address, start, lcd),
                            step_lp(m, address, thumb, start, lp),
                            step_pool_labels(
                                m,
                                address,
                                thumb,
                                start,
                                step_branch_labels(m, address, start, labels),
                            ),
                        )
                    }
                }
            },
        }
    }
}

/// The shape a successful parse determines: the first byte past the final
/// return, the aligned end, and the label addresses in recording order.
pub struct ParseShape {
    pub code_end: u32,
    pub end: u32,
    pub labels: Seq<u32>,
}

/// What parsing yields for given code, start and mode: the walk must end,
/// and the aligned end — the code end or the last pool constant's end,
/// rounded up to a word — must stay in the address space and inside the
/// code at hand.
pub open spec fn parse_shape(code: Seq<u8>, start: u32, thumb: bool) -> Option<ParseShape> {
    match walk(code, start, thumb, 0, None, None, Seq::empty()) {
        WalkStop::Fail => None,
        WalkStop::End { code_end, last_pool, labels } => {
            let pool_end = match last_pool {
                Some(p) => p as int + 4,
                None => 0,
            };
            let raw = if pool_end > code_end {
                pool_end
            } else {
                code_end
            };
            let end = round_up4(raw);
            if end > u32::MAX || end - start as int > code.len() {
                None
            } else {
                Some(ParseShape { code_end: code_end as u32, end: end as u32, labels })
            }
        },
    }
}

impl<'a> Function<'a> {
    /// Parse one function from its start address to its final return. The
    /// walk tracks the furthest forward branch target, so a return inside
    /// a conditional block does not end the function, and the furthest
    /// pool constant, which may extend the function past its final
    /// return. The result is exactly what `parse_shape` determines: a
    /// failed decode, an illegal opcode, a stream without a return, or an
    /// end outside the code at hand parses to `None`.
    #[verifier::rlimit(100)]
    pub fn parse_function(name: String, start_address: u32, thumb: bool, code: &'a [u8]) -> (r:
        Option<Function<'a>>)
        requires
            start_address as int + code@.len() <= 0xFFFF_FFF8u32 as int,
        ensures
            match r {
                Some(f) => {
                    &&& parse_shape(code@, start_address, thumb) is Some
                    &&& {
                        let shape = parse_shape(code@, start_address, thumb)->Some_0;
                        &&& f.wf()
                        &&& f.start_address_spec() == start_address
                        &&& f.thumb_spec() == thumb
                        &&& f.name_spec() == name@
                        &&& f.code_end_address_spec() == shape.code_end
                        &&& f.end_address_spec() == shape.end
                        &&& f.start_address_spec() < f.code_end_address_spec()
                        &&& f.code_seq().len() <= code@.len()
                        &&& f.code_seq() == code@.subrange(
                            0,
                            shape.end - start_address as int,
                        )
                        &&& f.labels_seq().len() == shape.labels.len()
                        &&& forall|i: int|
                            0 <= i < f.labels_seq().len() ==> (
                            #[trigger] f.labels_seq()[i]).0 == shape.labels[i]
                        &&& forall|i: int|
                            0 <= i < f.labels_seq().len() ==> (
                            #[trigger] f.labels_seq()[i]).1.name@ == seq!['_'] + hex8(
                                shape.labels[i],
                            )
                    }
                },
                None => parse_shape(code@, start_address, thumb) is None,
            },
    {
        let mut offset: usize = 0;
        let mut labels: Vec<(u32, FunctionLabel)> = Vec::new();
        let ghost mut addrs: Seq<u32> = Seq::empty();
        let mut last_cond_dest: Option<u32> = None;
        let mut last_pool: Option<u32> = None;
        let mut code_end: u32 = 0;
        let mut found_end = false;
        let ghost whole = walk(code@, start_address, thumb, 0, None, None, Seq::empty());
        while !found_end
            invariant
                0 <= offset <= code@.len(),
                start_address as int + code@.len() <= 0xFFFF_FFF8u32 as int,
                whole == walk(code@, start_address, thumb, 0, None, None, Seq::<u32>::empty()),
                !found_end ==> whole == walk(
                    code@,
                    start_address,
                    thumb,
                    offset as int,
                    last_cond_dest,
                    last_pool,
                    addrs,
                ),
                found_end ==> whole == (WalkStop::End {
                    code_end: code_end as int,
                    last_pool,
                    labels: addrs,
                }),
                labels@.len() == addrs.len(),
                forall|i: int|
                    0 <= i < labels@.len() ==> (#[trigger] labels@[i]).0 == addrs[i],
                forall|i: int|
                    0 <= i < labels@.len() ==> (#[trigger] labels@[i]).1.name@ == seq!['_']
                        + hex8(addrs[i]),
                forall|i: int|
                    0 <= i < labels@.len() ==> start_address <= (#[trigger] labels@[i]).0,
                forall|i: int|
                    0 <= i < labels@.len() ==> (#[trigger] labels@[i]).0 <= opt_bound(
                        last_cond_dest,
                        last_pool,
                    ),
                last_cond_dest is Some ==> last_cond_dest->0 >= start_address,
                last_pool is Some ==> last_pool->0 >= start_address,
                found_end ==> start_address < code_end && code_end as int <= start_address as int
                    + offset,
                found_end && last_cond_dest is Some ==> last_cond_dest->0 < code_end,
                !found_end ==> code_end == 0,
            decreases code@.len() - offset,
        {
            let address = start_address + offset as u32;
            let ghost lcd0 = last_cond_dest;
            let ghost lp0 = last_pool;
            let ghost addrs0 = addrs;
            let (m, size) = match read_instruction(code, offset, address, thumb) {
                Some(t) => t,
                None => {
                    proof {
                        assert(walk(
                            code@,
                            start_address,
                            thumb,
                            offset as int,
                            lcd0,
                            lp0,
                            addrs0,
                        ) == WalkStop::Fail);
                    }
                    return None;
                },
            };
            if m.op_illegal {
                proof {
                    assert(walk(code@, start_address, thumb, offset as int, lcd0, lp0, addrs0)
                        == WalkStop::Fail);
                }
                return None;
            }
            let past_conditional = match last_cond_dest {
                Some(d) => address >= d,
                None => true,
            };
            if past_conditional && is_return(&m) {
                code_end = address + size as u32;
                found_end = true;
                offset = offset + size;
                proof {
                    assert(walk(code@, start_address, thumb, offset as int - size, lcd0, lp0,
                        addrs0) == (WalkStop::End {
                        code_end: code_end as int,
                        last_pool,
                        labels: addrs,
                    }));
                }
            } else {
                if let Some(dest) = is_branch(&m, address) {
                    if dest >= start_address {
                        let ghost labels0 = labels@;
                        add_label(&mut labels, dest);
                        proof {
                            assert(addrs.contains(dest) <==> exists|k: int|
                                0 <= k < labels0.len() && (#[trigger] labels0[k]).0 == dest) by {
                                if addrs.contains(dest) {
                                    let k = choose|k: int|
                                        0 <= k < addrs.len() && addrs[k] == dest;
                                    assert(labels0[k].0 == dest);
                                }
                                if exists|k: int|
                                    0 <= k < labels0.len() && (#[trigger] labels0[k]).0
                                        == dest {
                                    let k = choose|k: int|
                                        0 <= k < labels0.len() && (#[trigger] labels0[k]).0
                                            == dest;
                                    assert(addrs[k] == dest);
                                }
                            }
                            addrs = record_label(addrs, dest);
                            assert(labels@.len() == addrs.len());
                            assert forall|i: int|
                                0 <= i < labels@.len() implies (#[trigger] labels@[i]).0
                                == addrs[i] && labels@[i].1.name@ == seq!['_'] + hex8(addrs[i])
                                && start_address <= labels@[i].0 by {
                                if i < labels0.len() {
                                    assert(labels@[i] == labels0[i]);
                                }
                            }
                        }
                        let new_max = match last_cond_dest {
                            Some(d) => if dest > d {
                                dest
                            } else {
                                d
                            },
                            None => dest,
                        };
                        last_cond_dest = Some(new_max);
                        proof {
                            assert(new_max >= dest);
                            assert(opt_bound(last_cond_dest, last_pool) >= opt_bound(
                                lcd0,
                                last_pool,
                            ));
                            assert forall|i: int|
                                0 <= i < labels@.len() implies (#[trigger] labels@[i]).0
                                <= opt_bound(last_cond_dest, last_pool) by {
                                if i < addrs0.len() {
                                } else {
                                    assert(labels@[i].0 == dest);
                                }
                            }
                        }
                    }
                }
                proof {
                    assert(last_cond_dest == step_lcd(m, address, start_address, lcd0));
                    assert(addrs == step_branch_labels(m, address, start_address, addrs0));
                }
                let ghost addrs1 = addrs;
                if let Some(pool) = is_pool_load(&m, address, thumb) {
                    if pool >= start_address {
                        let ghost labels1 = labels@;
                        add_label(&mut labels, pool);
                        proof {
                            assert(addrs.contains(pool) <==> exists|k: int|
                                0 <= k < labels1.len() && (#[trigger] labels1[k]).0 == pool) by {
                                if addrs.contains(pool) {
                                    let k = choose|k: int|
                                        0 <= k < addrs.len() && addrs[k] == pool;
                                    assert(labels1[k].0 == pool);
                                }
                                if exists|k: int|
                                    0 <= k < labels1.len() && (#[trigger] labels1[k]).0
                                        == pool {
                                    let k = choose|k: int|
                                        0 <= k < labels1.len() && (#[trigger] labels1[k]).0
                                            == pool;
                                    assert(addrs[k] == pool);
                                }
                            }
                            addrs = record_label(addrs, pool);
                            assert(labels@.len() == addrs.len());
                            assert forall|i: int|
                                0 <= i < labels@.len() implies (#[trigger] labels@[i]).0
                                == addrs[i] && labels@[i].1.name@ == seq!['_'] + hex8(addrs[i])
                                && start_address <= labels@[i].0 by {
                                if i < labels1.len() {
                                    assert(labels@[i] == labels1[i]);
                                }
                            }
                        }
                        let new_max = match last_pool {
                            Some(p) => if pool > p {
                                pool
                            } else {
                                p
                            },
                            None => pool,
                        };
                        last_pool = Some(new_max);
                        proof {
                            assert(new_max >= pool);
                            assert(opt_bound(last_cond_dest, last_pool) >= opt_bound(
                                last_cond_dest,
                                lp0,
                            ));
                            assert forall|i: int|
                                0 <= i < labels@.len() implies (#[trigger] labels@[i]).0
                                <= opt_bound(last_cond_dest, last_pool) by {
                                if i < addrs1.len() {
                                } else {
                                    assert(labels@[i].0 == pool);
                                }
                            }
                        }
                    }
                }
                proof {
                    assert(last_pool == step_lp(m, address, thumb, start_address, lp0));
                    assert(addrs == step_pool_labels(m, address, thumb, start_address, addrs1));
                }
                offset = offset + size;
                proof {
                    assert(walk(code@, start_address, thumb, offset as int - size, lcd0, lp0,
                        addrs0) == walk(
                        code@,
                        start_address,
                        thumb,
                        offset as int,
                        last_cond_dest,
                        last_pool,
                        addrs,
                    ));
                }
            }
        }
        let pool_end: u64 = match last_pool {
            Some(p) => p as u64 + 4,
            None => 0,
        };
        let raw_end: u64 = if pool_end > code_end as u64 {
            pool_end
        } else {
            code_end as u64
        };
        let end64: u64 = if raw_end % 4 == 0 {
            raw_end
        } else {
            raw_end + (4 - raw_end % 4)
        };
        proof {
            assert(end64 as int == round_up4(raw_end as int));
        }
        if end64 > u32::MAX as u64 {
            proof {
                assert(parse_shape(code@, start_address, thumb) is None);
            }
            return None;
        }
        let end_address = end64 as u32;
        let size64 = end64 - start_address as u64;
        if size64 > code.len() as u64 {
            proof {
                assert(parse_shape(code@, start_address, thumb) is None);
            }
            return None;
        }
        let size = size64 as usize;
        let func_code = vstd::slice::slice_subrange(code, 0, size);
        proof {
            if last_pool is Some {
                assert(last_pool->0 < end_address);
            }
            if last_cond_dest is Some {
                assert(last_cond_dest->0 < code_end);
            }
            assert(opt_bound(last_cond_dest, last_pool) < end_address);
            assert forall|i: int|
                0 <= i < labels@.len() implies start_address <= (#[trigger] labels@[i]).0
                < end_address by {
                assert(labels@[i].0 <= opt_bound(last_cond_dest, last_pool));
            }
            assert(parse_shape(code@, start_address, thumb) == Some(
                ParseShape { code_end, end: end_address, labels: addrs },
            ));
        }
        Some(
            Function {
                name,
                start_address,
                end_address,
                code_end_address: code_end,
                thumb,
                labels,
                code: func_code,
            },
        )
    }
}

/// The name a discovered function gets when the symbol map has none: the
/// prefix and the address in eight hex digits.
pub fn default_function_name(prefix: &str, address: u32) -> (s: String)
    ensures
        s@ == prefix@ + hex8(address),
{
    let mut chars: Vec<char> = Vec::new();
    push_hex8(&mut chars, address);
    let hex = string_of_chars(&chars);
    let mut s = prefix.to_owned();
    s.append(hex.as_str());
    proof {
        assert(Seq::<char>::empty() + hex8(address) =~= hex8(address));
    }
    s
}

/// Discover functions in a code region: guess the encoding of each
/// candidate, parse a function, register it in the symbol map when it is
/// new, and continue past its end, until the region or the requested
/// count is exhausted. Every function returned satisfies the function
/// invariants.
impl<'a> Function<'a> {
    /// Discover functions in a code region: guess the encoding of each
    /// candidate, parse a function, register it in the symbol map when it
    /// is new, and continue at its end, until the region, the requested
    /// count, or the parse gives out. The functions tile the region
    /// contiguously from its start; every one satisfies the function
    /// invariants; every one stands in the symbol map at its start
    /// address, and the map gains nothing but those function symbols.
    #[verifier::rlimit(100)]
    pub fn find_functions(
        code: &'a [u8],
        base_addr: u32,
        default_name_prefix: &str,
        symbol_map: &mut SymbolMap,
        start_address: Option<u32>,
        end_address: Option<u32>,
        num_functions: Option<usize>,
    ) -> (r: Vec<Function<'a>>)
        requires
            base_addr as int + code@.len() <= 0xFFFF_FFF8u32 as int,
            match start_address {
                Some(s) => base_addr <= s && s as int <= base_addr as int + code@.len(),
                None => true,
            },
            match end_address {
                Some(e) => base_addr <= e && e as int <= base_addr as int + code@.len(),
                None => true,
            },
            match (start_address, end_address) {
                (Some(s), Some(e)) => s <= e,
                _ => true,
            },
        ensures
            forall|i: int| 0 <= i < r@.len() ==> (#[trigger] r@[i]).wf(),
            r@.len() > 0 ==> r@[0].start_address_spec() == match start_address {
                Some(s) => s,
                None => base_addr,
            },
            forall|i: int|
                0 <= i < r@.len() - 1 ==> (#[trigger] r@[i + 1]).start_address_spec() == r@[
                    i].end_address_spec(),
            match num_functions {
                Some(n) => r@.len() <= n,
                None => true,
            },
            forall|i: int|
                0 <= i < r@.len() ==> match start_address {
                    Some(s) => s,
                    None => base_addr,
                } <= (#[trigger] r@[i]).start_address_spec(),
            forall|i: int|
                0 <= i < r@.len() ==> (#[trigger] r@[i]).end_address_spec() as int <= match
                    end_address {
                    Some(e) => e as int,
                    None => base_addr as int + code@.len(),
                },
            forall|i: int|
                0 <= i < r@.len() ==> has_symbol_at(
                    final(symbol_map)@,
                    (#[trigger] r@[i]).start_address_spec(),
                ),
            final(symbol_map)@.len() >= old(symbol_map)@.len(),
            forall|k: int|
                0 <= k < old(symbol_map)@.len() ==> (#[trigger] final(symbol_map)@[k])
                    == old(symbol_map)@[k],
            forall|k: int|
                old(symbol_map)@.len() <= k < final(symbol_map)@.len() ==> (
                #[trigger] final(symbol_map)@[k]).kind == crate::symbol::SymbolRole::Function
                    && exists|i: int|
                    0 <= i < r@.len() && (#[trigger] r@[i]).start_address_spec()
                        == final(symbol_map)@[k].address && r@[i].name_spec()
                        == final(symbol_map)@[k].name@,
            forall|i: int|
                0 <= i < r@.len() ==> {
                    let lo = (#[trigger] r@[i]).start_address_spec() as int - base_addr;
                    let hi = match end_address {
                        Some(e) => e as int - base_addr,
                        None => code@.len() as int,
                    };
                    let piece = code@.subrange(lo, hi);
                    &&& r@[i].thumb_spec() == thumb_guess(piece)
                    &&& parse_shape(piece, r@[i].start_address_spec(), r@[i].thumb_spec())
                        is Some
                    &&& {
                        let shape = parse_shape(
                            piece,
                            r@[i].start_address_spec(),
                            r@[i].thumb_spec(),
                        )->Some_0;
                        r@[i].code_end_address_spec() == shape.code_end && r@[
                            i].end_address_spec() == shape.end
                    }
                },
            ({
                let lo = match start_address {
                    Some(s) => s as int - base_addr,
                    None => 0int,
                };
                let hi = match end_address {
                    Some(e) => e as int - base_addr,
                    None => code@.len() as int,
                };
                let stop = if r@.len() > 0 {
                    r@[r@.len() - 1].end_address_spec() as int - base_addr
                } else {
                    lo
                };
                ||| (match num_functions {
                    Some(n) => r@.len() == n,
                    None => false,
                })
                ||| stop == hi
                ||| parse_shape(
                    code@.subrange(stop, hi),
                    (base_addr + stop) as u32,
                    thumb_guess(code@.subrange(stop, hi)),
                ) is None
            }),
    {
        let mut functions: Vec<Function<'a>> = Vec::new();
        let start_offset: usize = match start_address {
            Some(s) => (s - base_addr) as usize,
            None => 0,
        };
        let end_offset: usize = match end_address {
            Some(e) => (e - base_addr) as usize,
            None => code.len(),
        };
        if end_offset < start_offset || end_offset > code.len() {
            return functions;
        }
        let ghost map0 = symbol_map@;
        let mut offset: usize = start_offset;
        while offset < end_offset
            invariant
                start_offset <= offset <= end_offset <= code@.len(),
                base_addr as int + code@.len() <= 0xFFFF_FFF8u32 as int,
                start_offset as int == match start_address {
                    Some(s) => s - base_addr,
                    None => 0int,
                },
                end_offset as int == match end_address {
                    Some(e) => e - base_addr,
                    None => code@.len() as int,
                },
                base_addr as int + start_offset <= u32::MAX as int,
                forall|i: int| 0 <= i < functions@.len() ==> (#[trigger] functions@[i]).wf(),
                functions@.len() > 0 ==> functions@[0].start_address_spec() as int == base_addr
                    + start_offset,
                functions@.len() > 0 ==> functions@[functions@.len()
                    - 1].end_address_spec() as int == base_addr + offset,
                functions@.len() == 0 ==> offset == start_offset,
                forall|i: int|
                    0 <= i < functions@.len() - 1 ==> (#[trigger] functions@[i
                        + 1]).start_address_spec() == functions@[i].end_address_spec(),
                match num_functions {
                    Some(n) => functions@.len() <= n,
                    None => true,
                },
                forall|i: int|
                    0 <= i < functions@.len() ==> base_addr + start_offset <= (
                    #[trigger] functions@[i]).start_address_spec(),
                forall|i: int|
                    0 <= i < functions@.len() ==> (
                    #[trigger] functions@[i]).end_address_spec() as int <= base_addr
                        + end_offset,
                forall|i: int|
                    0 <= i < functions@.len() ==> {
                        let lo = (#[trigger] functions@[i]).start_address_spec() as int
                            - base_addr;
                        let piece = code@.subrange(lo, end_offset as int);
                        &&& functions@[i].thumb_spec() == thumb_guess(piece)
                        &&& parse_shape(
                            piece,
                            functions@[i].start_address_spec(),
                            functions@[i].thumb_spec(),
                        ) is Some
                        &&& {
                            let shape = parse_shape(
                                piece,
                                functions@[i].start_address_spec(),
                                functions@[i].thumb_spec(),
                            )->Some_0;
                            functions@[i].code_end_address_spec() == shape.code_end
                                && functions@[i].end_address_spec() == shape.end
                        }
                    },
                map0 == old(symbol_map)@,
                symbol_map@.len() >= map0.len(),
                forall|k: int|
                    0 <= k < map0.len() ==> (#[trigger] symbol_map@[k]) == map0[k],
                forall|i: int|
                    0 <= i < functions@.len() ==> has_symbol_at(
                        symbol_map@,
                        (#[trigger] functions@[i]).start_address_spec(),
                    ),
                forall|k: int|
                    map0.len() <= k < symbol_map@.len() ==> (
                    #[trigger] symbol_map@[k]).kind == crate::symbol::SymbolRole::Function
                        && exists|i: int|
                        0 <= i < functions@.len() && (#[trigger] functions@[
                            i]).start_address_spec() == symbol_map@[k].address && functions@[
                            i].name_spec() == symbol_map@[k].name@,
            decreases end_offset - offset,
        {
            if let Some(n) = num_functions {
                if functions.len() >= n {
                    proof {
                        assert(functions@.len() == n);
                    }
                    return functions;
                }
            }
            let address = base_addr + offset as u32;
            let remaining = vstd::slice::slice_subrange(code, offset, end_offset);
            let thumb = Function::is_thumb_function(remaining);
            let (fn_name, is_new) = match symbol_map.by_address(address) {
                Some(sym) => (sym.name.clone(), false),
                None => (default_function_name(default_name_prefix, address), true),
            };
            let function = match Function::parse_function(fn_name, address, thumb, remaining) {
                Some(f) => f,
                None => {
                    proof {
                        assert(remaining@ == code@.subrange(offset as int, end_offset as int));
                        assert(parse_shape(
                            code@.subrange(offset as int, end_offset as int),
                            address,
                            thumb_guess(code@.subrange(offset as int, end_offset as int)),
                        ) is None);
                    }
                    return functions;
                },
            };
            let f_start = function.start_address();
            let reg_name = String::from_str(function.name());
            let size = function.size();
            let ghost fns0 = functions@;
            let ghost map_before = symbol_map@;
            functions.push(function);
            if is_new {
                symbol_map.add_function_symbol(reg_name, f_start);
            }
            proof {
                assert(functions@[functions@.len() - 1].start_address_spec() == address);
                assert(remaining@ == code@.subrange(offset as int, end_offset as int));
                assert forall|i: int|
                    0 <= i < functions@.len() implies {
                    let lo = (#[trigger] functions@[i]).start_address_spec() as int - base_addr;
                    let piece = code@.subrange(lo, end_offset as int);
                    &&& functions@[i].thumb_spec() == thumb_guess(piece)
                    &&& parse_shape(
                        piece,
                        functions@[i].start_address_spec(),
                        functions@[i].thumb_spec(),
                    ) is Some
                    &&& {
                        let shape = parse_shape(
                            piece,
                            functions@[i].start_address_spec(),
                            functions@[i].thumb_spec(),
                        )->Some_0;
                        functions@[i].code_end_address_spec() == shape.code_end && functions@[
                            i].end_address_spec() == shape.end
                    }
                } by {
                    if i < fns0.len() {
                        assert(functions@[i] == fns0[i]);
                    } else {
                        assert(functions@[i].start_address_spec() == address);
                        assert(code@.subrange(offset as int, end_offset as int) == remaining@);
                    }
                }
                assert forall|i: int|
                    0 <= i < functions@.len() implies has_symbol_at(
                    symbol_map@,
                    (#[trigger] functions@[i]).start_address_spec(),
                ) by {
                    if i < fns0.len() {
                        assert(functions@[i] == fns0[i]);
                        let a = fns0[i].start_address_spec();
                        let k = choose|k: int|
                            0 <= k < map_before.len() && #[trigger] map_before[k].address == a;
                        assert(symbol_map@[k].address == a);
                    } else {
                        if is_new {
                        } else {
                            let a = address;
                            let k = choose|k: int|
                                0 <= k < map_before.len() && #[trigger] map_before[k].address
                                    == a;
                            assert(symbol_map@[k].address == a);
                        }
                    }
                }
                assert forall|k: int|
                    map0.len() <= k < symbol_map@.len() implies (
                #[trigger] symbol_map@[k]).kind == crate::symbol::SymbolRole::Function
                    && exists|i: int|
                    0 <= i < functions@.len() && (#[trigger] functions@[i]).start_address_spec()
                        == symbol_map@[k].address && functions@[i].name_spec() == symbol_map@[
                        k].name@ by {
                    if k < map_before.len() {
                        assert(symbol_map@[k] == map_before[k]);
                        let i = choose|i: int|
                            0 <= i < fns0.len() && (#[trigger] fns0[i]).start_address_spec()
                                == map_before[k].address && fns0[i].name_spec() == map_before[
                                k].name@;
                        assert(functions@[i] == fns0[i]);
                    } else {
                        assert(functions@[functions@.len() - 1].start_address_spec()
                            == symbol_map@[k].address && functions@[functions@.len()
                            - 1].name_spec() == symbol_map@[k].name@);
                    }
                }
                assert forall|i: int|
                    0 <= i < functions@.len() - 1 implies (#[trigger] functions@[i
                        + 1]).start_address_spec() == functions@[i].end_address_spec() by {
                    if i + 1 < fns0.len() {
                        assert(functions@[i] == fns0[i]);
                        assert(functions@[i + 1] == fns0[i + 1]);
                    } else {
                        assert(functions@[i] == fns0[i]);
                    }
                }
            }
            offset = offset + size as usize;
        }
        functions
    }
}

} // verus!
