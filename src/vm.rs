use std::sync::Arc;

use vstd::prelude::*;

use crate::animation::{abs, div_trunc};
use crate::memory::{
    chunks_touched, le_read_u32, le_u16, le_u32, put_le_u16, put_le_u32, spliced, Memory,
    MemorySnapshot,
};
use crate::q3;

verus! {

/// A decoded instruction: an opcode and its immediate (zero where it has none).
#[derive(Clone, Copy, Debug, PartialEq, Eq, Structural)]
pub struct Instruction {
    pub opcode: u8,
    pub arg: u32,
}

/// Why the interpreter handed control back to the host.
#[derive(Clone, Copy, Debug, PartialEq, Eq, Structural)]
pub enum ExitReason {
    /// The entry function returned to the host; its result is on top of the operand stack.
    Return,
    /// The bytecode called host service `id`; its arguments are on the program stack.
    Syscall(u32),
    /// A floating-point instruction, for the host to carry out on the raw bits: for an
    /// arithmetic or conversion opcode it pushes the result, for a comparison it jumps to
    /// `arg` where the comparison holds. `b` is zero for a one-operand opcode.
    Float { opcode: u8, arg: u32, a: u32, b: u32 },
    /// The instruction cannot run: the program counter is outside the code, the operand stack
    /// holds too few values, an access leaves memory, a divisor is zero, or the opcode is
    /// unknown.
    Fault,
}

/// The value of `x`'s bits as a two's-complement signed integer.
pub open spec fn s32(x: u32) -> int {
    if x < 0x8000_0000 {
        x as int
    } else {
        x as int - 0x1_0000_0000
    }
}

/// The bits of `x` modulo 2^32.
pub open spec fn u32_of(x: int) -> u32 {
    (x % 0x1_0000_0000) as u32
}

/// The remainder of division rounding toward zero: the sign of `n`, the size of `|n| mod |d|`.
pub open spec fn rem_trunc(n: int, d: int) -> int {
    if n >= 0 {
        abs(n) % abs(d)
    } else {
        -(abs(n) % abs(d))
    }
}

pub open spec fn sign_extend8(v: u32) -> u32 {
    let b = v % 256;
    if b < 128 {
        b
    } else {
        (b + 0xFFFF_FF00) as u32
    }
}

pub open spec fn sign_extend16(v: u32) -> u32 {
    let h = v % 65536;
    if h < 32768 {
        h
    } else {
        (h + 0xFFFF_0000) as u32
    }
}

/// Arithmetic shift right by `b mod 32`: the sign bit fills the vacated bits.
pub open spec fn shift_right_arith(a: u32, b: u32) -> u32 {
    if a < 0x8000_0000 {
        a >> (b % 32)
    } else {
        !((!a) >> (b % 32))
    }
}

pub open spec fn is_int_unary(op: u8) -> bool {
    op == q3::OP_SEX8 || op == q3::OP_SEX16 || op == q3::OP_NEGI || op == q3::OP_BCOM
}

pub open spec fn is_int_binary(op: u8) -> bool {
    q3::OP_ADD <= op <= q3::OP_RSHU && op != q3::OP_BCOM
}

pub open spec fn is_division(op: u8) -> bool {
    op == q3::OP_DIVI || op == q3::OP_DIVU || op == q3::OP_MODI || op == q3::OP_MODU
}

/// What a one-operand integer opcode makes of `a`.
pub open spec fn unary_value(op: u8, a: u32) -> u32 {
    if op == q3::OP_SEX8 {
        sign_extend8(a)
    } else if op == q3::OP_SEX16 {
        sign_extend16(a)
    } else if op == q3::OP_NEGI {
        0u32.wrapping_sub(a)
    } else {
        !a
    }
}

/// What a two-operand integer opcode makes of `a` (pushed first) and `b`, wrapping.
pub open spec fn binary_value(op: u8, a: u32, b: u32) -> u32 {
    if op == q3::OP_ADD {
        a.wrapping_add(b)
    } else if op == q3::OP_SUB {
        a.wrapping_sub(b)
    } else if op == q3::OP_DIVI {
        u32_of(div_trunc(s32(a), s32(b)))
    } else if op == q3::OP_DIVU {
        (a / b) as u32
    } else if op == q3::OP_MODI {
        u32_of(rem_trunc(s32(a), s32(b)))
    } else if op == q3::OP_MODU {
        (a % b) as u32
    } else if op == q3::OP_MULI || op == q3::OP_MULU {
        // The low 32 bits of a product do not depend on signedness.
        a.wrapping_mul(b)
    } else if op == q3::OP_BAND {
        a & b
    } else if op == q3::OP_BOR {
        a | b
    } else if op == q3::OP_BXOR {
        a ^ b
    } else if op == q3::OP_LSH {
        a.wrapping_shl(b)
    } else if op == q3::OP_RSHI {
        shift_right_arith(a, b)
    } else {
        a.wrapping_shr(b)
    }
}

pub open spec fn is_int_branch(op: u8) -> bool {
    q3::OP_EQ <= op <= q3::OP_GEU
}

/// Whether an integer conditional branch on `a` (pushed first) and `b` jumps.
pub open spec fn branch_taken(op: u8, a: u32, b: u32) -> bool {
    if op == q3::OP_EQ {
        a == b
    } else if op == q3::OP_NE {
        a != b
    } else if op == q3::OP_LTI {
        s32(a) < s32(b)
    } else if op == q3::OP_LEI {
        s32(a) <= s32(b)
    } else if op == q3::OP_GTI {
        s32(a) > s32(b)
    } else if op == q3::OP_GEI {
        s32(a) >= s32(b)
    } else if op == q3::OP_LTU {
        a < b
    } else if op == q3::OP_LEU {
        a <= b
    } else if op == q3::OP_GTU {
        a > b
    } else {
        a >= b
    }
}

/// Float opcodes that take two operands; the others take one.
pub open spec fn is_float_binary(op: u8) -> bool {
    (q3::OP_EQF <= op <= q3::OP_GEF) || (q3::OP_ADDF <= op <= q3::OP_MULF)
}

pub open spec fn is_float(op: u8) -> bool {
    is_float_binary(op) || op == q3::OP_NEGF || op == q3::OP_CVIF || op == q3::OP_CVFI
}

/// Why a bytecode file could not be loaded.
#[derive(Clone, Copy, Debug, PartialEq, Eq, Structural)]
pub enum LoadError {
    /// The file ends inside the header, the code or the data.
    Truncated,
    /// An opcode byte names no instruction.
    BadOpcode(u8),
    /// The memory image would not fit in a 32-bit address space.
    TooLarge,
}

/// Bytes in the file header: eight little-endian words.
pub const HEADER_SIZE: usize = 32;

/// The width of `op`'s immediate in the file.
pub open spec fn imm_width(op: u8) -> int {
    if op == q3::OP_ENTER || op == q3::OP_LEAVE || op == q3::OP_CONST || op == q3::OP_LOCAL || (
    q3::OP_EQ <= op <= q3::OP_GEF) || op == q3::OP_BLOCK_COPY {
        4
    } else if op == q3::OP_ARG {
        1
    } else {
        0
    }
}

/// `count` instructions decoded from `bytes` at `pos`.
pub open spec fn decode(bytes: Seq<u8>, pos: int, count: nat) -> Result<Seq<Instruction>, LoadError>
    decreases count,
{
    if count == 0 {
        Ok(Seq::empty())
    } else if pos >= bytes.len() {
        Err(LoadError::Truncated)
    } else {
        let op = bytes[pos];
        let w = imm_width(op);
        if op > q3::OP_CVFI {
            Err(LoadError::BadOpcode(op))
        } else if pos + 1 + w > bytes.len() {
            Err(LoadError::Truncated)
        } else {
            let arg = if w == 4 {
                le_u32(bytes, pos + 1)
            } else if w == 1 {
                bytes[pos + 1] as u32
            } else {
                0
            };
            match decode(bytes, pos + 1 + w, (count - 1) as nat) {
                Ok(rest) => Ok(seq![Instruction { opcode: op, arg }] + rest),
                Err(e) => Err(e),
            }
        }
    }
}

proof fn lemma_decode_len(bytes: Seq<u8>, pos: int, count: nat)
    ensures
        decode(bytes, pos, count) matches Ok(code) ==> code.len() == count,
    decreases count,
{
    if count > 0 && pos < bytes.len() {
        let w = imm_width(bytes[pos]);
        lemma_decode_len(bytes, pos + 1 + w, (count - 1) as nat);
    }
}

/// Header word `i` of a bytecode file.
pub open spec fn header(bytes: Seq<u8>, i: int) -> u32 {
    le_u32(bytes, 4 * i)
}

/// What loading `bytes` gives: the code, and the initialised part of memory (data and
/// literals from the file, then zeros for the BSS).
pub open spec fn loaded(bytes: Seq<u8>) -> Result<(Seq<Instruction>, Seq<u8>), LoadError> {
    if bytes.len() < HEADER_SIZE {
        Err(LoadError::Truncated)
    } else {
        match decode(bytes, header(bytes, 2) as int, header(bytes, 1) as nat) {
            Err(e) => Err(e),
            Ok(code) => {
                let data_offset = header(bytes, 4) as int;
                let init = header(bytes, 5) + header(bytes, 6);
                let total = init + header(bytes, 7);
                if total + 64 > u32::MAX {
                    Err(LoadError::TooLarge)
                } else if data_offset + init > bytes.len() {
                    Err(LoadError::Truncated)
                } else {
                    Ok(
                        (
                            code,
                            bytes.subrange(data_offset, data_offset + init) + Seq::new(
                                header(bytes, 7) as nat,
                                |i: int| 0u8,
                            ),
                        ),
                    )
                }
            },
        }
    }
}

/// The sentinel return address that ends a call from the host.
pub const RETURN_SENTINEL: u32 = 0xDEAD_BEEF;

/// The interpreter: code, memory, program counter, program stack pointer (a byte offset into
/// memory that grows downward) and operand stack.
#[derive(Clone)]
pub struct Vm {
    pub code: Vec<Instruction>,
    pub memory: Memory,
    pub pc: u32,
    pub program_stack: u32,
    pub op_stack: Vec<u32>,
}

impl Default for Vm {
    /// A machine with no code and no memory.
    fn default() -> (r: Self)
        ensures
            r.wf(),
            r.code@.len() == 0,
            r.memory@.len() == 0,
            r.pc == 0,
            r.program_stack == 0,
            r.op_stack@.len() == 0,
    {
        Vm {
            code: Vec::new(),
            memory: Memory::new(Vec::new()),
            pc: 0,
            program_stack: 0,
            op_stack: Vec::new(),
        }
    }
}

/// `v1` is `v0` with the given registers, stack and memory.
pub open spec fn becomes(
    v0: Vm,
    v1: Vm,
    pc: u32,
    sp: u32,
    stack: Seq<u32>,
    mem: Seq<u8>,
    dirty: Set<nat>,
) -> bool {
    &&& v1.code@ == v0.code@
    &&& v1.pc == pc
    &&& v1.program_stack == sp
    &&& v1.op_stack@ == stack
    &&& v1.memory@ == mem
    &&& v1.memory.dirty_chunks() == dirty
}

/// The `k`-th value from the top of the operand stack.
pub open spec fn top(v: Vm, k: int) -> u32 {
    v.op_stack@[v.op_stack@.len() - 1 - k]
}

/// The operand stack without its top `n` values.
pub open spec fn below(v: Vm, n: int) -> Seq<u32> {
    v.op_stack@.subrange(0, v.op_stack@.len() - n)
}

/// One step of the interpreter from `v0` to `v1`, handing back `r`.
pub open spec fn step_relation(v0: Vm, v1: Vm, r: Option<ExitReason>) -> bool {
    let fault = r == Some(ExitReason::Fault);
    if v0.pc >= v0.code@.len() || v0.pc == u32::MAX {
        fault
    } else {
        let ins = v0.code@[v0.pc as int];
        let op = ins.opcode;
        let arg = ins.arg;
        let next = (v0.pc + 1) as u32;
        let sp = v0.program_stack;
        let st = v0.op_stack@;
        let n = st.len();
        let m = v0.memory@;
        let d = v0.memory.dirty_chunks();
        let len = m.len();
        if op == q3::OP_UNDEF || op == q3::OP_IGNORE || op == q3::OP_BREAK {
            r.is_none() && becomes(v0, v1, next, sp, st, m, d)
        } else if op == q3::OP_ENTER {
            if arg <= sp && sp - arg + 8 <= len {
                let nsp = (sp - arg) as u32;
                r.is_none() && becomes(
                    v0,
                    v1,
                    next,
                    nsp,
                    st,
                    put_le_u32(m, nsp + 4, sp),
                    d.union(chunks_touched(nsp + 4, 4)),
                )
            } else {
                fault
            }
        } else if op == q3::OP_LEAVE {
            let at = sp + arg;
            if at + 4 <= len {
                let ra = le_u32(m, at);
                if ra != RETURN_SENTINEL {
                    r.is_none() && becomes(v0, v1, ra, at as u32, st, m, d)
                } else if at + 8 <= len {
                    r == Some(ExitReason::Return) && becomes(
                        v0,
                        v1,
                        ra,
                        le_u32(m, at + 4),
                        st,
                        m,
                        d,
                    )
                } else {
                    fault
                }
            } else {
                fault
            }
        } else if op == q3::OP_CALL {
            if n < 1 {
                fault
            } else if top(v0, 0) >= 0x8000_0000 {
                r == Some(ExitReason::Syscall((0xFFFF_FFFF - top(v0, 0)) as u32)) && becomes(
                    v0,
                    v1,
                    next,
                    sp,
                    below(v0, 1),
                    m,
                    d,
                )
            } else if sp + 4 <= len {
                r.is_none() && becomes(
                    v0,
                    v1,
                    top(v0, 0),
                    sp,
                    below(v0, 1),
                    put_le_u32(m, sp as int, next),
                    d.union(chunks_touched(sp as int, 4)),
                )
            } else {
                fault
            }
        } else if op == q3::OP_PUSH {
            r.is_none() && becomes(v0, v1, next, sp, st.push(0), m, d)
        } else if op == q3::OP_POP {
            if n < 1 {
                fault
            } else {
                r.is_none() && becomes(v0, v1, next, sp, below(v0, 1), m, d)
            }
        } else if op == q3::OP_CONST {
            r.is_none() && becomes(v0, v1, next, sp, st.push(arg), m, d)
        } else if op == q3::OP_LOCAL {
            r.is_none() && becomes(v0, v1, next, sp, st.push(sp.wrapping_add(arg)), m, d)
        } else if op == q3::OP_JUMP {
            if n < 1 {
                fault
            } else {
                r.is_none() && becomes(v0, v1, top(v0, 0), sp, below(v0, 1), m, d)
            }
        } else if is_int_branch(op) {
            if n < 2 {
                fault
            } else {
                let target = if branch_taken(op, top(v0, 1), top(v0, 0)) {
                    arg
                } else {
                    next
                };
                r.is_none() && becomes(v0, v1, target, sp, below(v0, 2), m, d)
            }
        } else if op == q3::OP_LOAD1 || op == q3::OP_LOAD2 || op == q3::OP_LOAD4 {
            let w = if op == q3::OP_LOAD1 {
                1int
            } else if op == q3::OP_LOAD2 {
                2int
            } else {
                4int
            };
            if n < 1 || top(v0, 0) + w > len {
                fault
            } else {
                let a = top(v0, 0) as int;
                let value = if op == q3::OP_LOAD1 {
                    m[a] as u32
                } else if op == q3::OP_LOAD2 {
                    le_u16(m, a) as u32
                } else {
                    le_u32(m, a)
                };
                r.is_none() && becomes(v0, v1, next, sp, below(v0, 1).push(value), m, d)
            }
        } else if op == q3::OP_STORE1 || op == q3::OP_STORE2 || op == q3::OP_STORE4 {
            let w = if op == q3::OP_STORE1 {
                1int
            } else if op == q3::OP_STORE2 {
                2int
            } else {
                4int
            };
            if n < 2 || top(v0, 1) + w > len {
                fault
            } else {
                let a = top(v0, 1) as int;
                let value = top(v0, 0);
                let mem = if op == q3::OP_STORE1 {
                    m.update(a, (value % 256) as u8)
                } else if op == q3::OP_STORE2 {
                    put_le_u16(m, a, (value % 65536) as u16)
                } else {
                    put_le_u32(m, a, value)
                };
                r.is_none() && becomes(
                    v0,
                    v1,
                    next,
                    sp,
                    below(v0, 2),
                    mem,
                    d.union(chunks_touched(a, w)),
                )
            }
        } else if op == q3::OP_ARG {
            let a = sp + arg;
            if n < 1 || a + 4 > len {
                fault
            } else {
                r.is_none() && becomes(
                    v0,
                    v1,
                    next,
                    sp,
                    below(v0, 1),
                    put_le_u32(m, a, top(v0, 0)),
                    d.union(chunks_touched(a, 4)),
                )
            }
        } else if op == q3::OP_BLOCK_COPY {
            if n < 2 || top(v0, 0) + arg > len || top(v0, 1) + arg > len {
                fault
            } else {
                let src = top(v0, 0) as int;
                let dst = top(v0, 1) as int;
                r.is_none() && becomes(
                    v0,
                    v1,
                    next,
                    sp,
                    below(v0, 2),
                    spliced(m, dst, m.subrange(src, src + arg)),
                    d.union(chunks_touched(dst, arg as int)),
                )
            }
        } else if is_int_unary(op) {
            if n < 1 {
                fault
            } else {
                r.is_none() && becomes(
                    v0,
                    v1,
                    next,
                    sp,
                    below(v0, 1).push(unary_value(op, top(v0, 0))),
                    m,
                    d,
                )
            }
        } else if is_int_binary(op) {
            if n < 2 || (is_division(op) && top(v0, 0) == 0) {
                fault
            } else {
                r.is_none() && becomes(
                    v0,
                    v1,
                    next,
                    sp,
                    below(v0, 2).push(binary_value(op, top(v0, 1), top(v0, 0))),
                    m,
                    d,
                )
            }
        } else if is_float(op) {
            if is_float_binary(op) {
                if n < 2 {
                    fault
                } else {
                    r == Some(ExitReason::Float { opcode: op, arg, a: top(v0, 1), b: top(v0, 0) })
                        && becomes(v0, v1, next, sp, below(v0, 2), m, d)
                }
            } else if n < 1 {
                fault
            } else {
                r == Some(ExitReason::Float { opcode: op, arg, a: top(v0, 0), b: 0 }) && becomes(
                    v0,
                    v1,
                    next,
                    sp,
                    below(v0, 1),
                    m,
                    d,
                )
            }
        } else {
            fault
        }
    }
}

impl Vm {
    pub open spec fn wf(&self) -> bool {
        self.memory.wf() && self.memory@.len() <= u32::MAX
    }

    /// Runs one instruction.
    #[verifier::rlimit(50)]
    pub fn step(&mut self) -> (r: Option<ExitReason>)
        requires
            old(self).wf(),
        ensures
            final(self).wf(),
            step_relation(*old(self), *final(self), r),
            final(self).code == old(self).code,
    {
        let pc = self.pc;
        if pc as usize >= self.code.len() || pc == u32::MAX {
            return Some(ExitReason::Fault);
        }
        let ins = self.code[pc as usize];
        let op = ins.opcode;
        let arg = ins.arg;
        let next = pc + 1;
        let size = self.memory.size() as u64;
        let n = self.op_stack.len();
        let sp = self.program_stack;
        if op == q3::OP_UNDEF || op == q3::OP_IGNORE || op == q3::OP_BREAK {
            self.pc = next;
            None
        } else if op == q3::OP_ENTER {
            if arg <= sp && (sp - arg) as u64 + 8 <= size {
                let nsp = sp - arg;
                self.memory.write(nsp + 4, sp);
                self.program_stack = nsp;
                self.pc = next;
                None
            } else {
                Some(ExitReason::Fault)
            }
        } else if op == q3::OP_LEAVE {
            let at = sp as u64 + arg as u64;
            if at + 4 <= size {
                let ra = self.memory.read(at as u32);
                if ra != RETURN_SENTINEL {
                    self.program_stack = at as u32;
                    self.pc = ra;
                    None
                } else if at + 8 <= size {
                    self.program_stack = self.memory.read(at as u32 + 4);
                    self.pc = ra;
                    Some(ExitReason::Return)
                } else {
                    Some(ExitReason::Fault)
                }
            } else {
                Some(ExitReason::Fault)
            }
        } else if op == q3::OP_CALL {
            if n < 1 {
                return Some(ExitReason::Fault);
            }
            let target = self.op_stack[n - 1];
            if target >= 0x8000_0000 {
                proof {
                    assert(!target == (0xFFFF_FFFFu32 - target) as u32) by (bit_vector);
                }
                self.op_stack.pop();
                self.pc = next;
                Some(ExitReason::Syscall(!target))
            } else if sp as u64 + 4 <= size {
                self.op_stack.pop();
                self.memory.write(sp, next);
                self.pc = target;
                None
            } else {
                Some(ExitReason::Fault)
            }
        } else if op == q3::OP_PUSH {
            self.op_stack.push(0);
            self.pc = next;
            None
        } else if op == q3::OP_POP {
            if n < 1 {
                return Some(ExitReason::Fault);
            }
            self.op_stack.pop();
            self.pc = next;
            None
        } else if op == q3::OP_CONST {
            self.op_stack.push(arg);
            self.pc = next;
            None
        } else if op == q3::OP_LOCAL {
            self.op_stack.push(sp.wrapping_add(arg));
            self.pc = next;
            None
        } else if op == q3::OP_JUMP {
            if n < 1 {
                return Some(ExitReason::Fault);
            }
            let target = self.op_stack[n - 1];
            self.op_stack.pop();
            self.pc = target;
            None
        } else if q3::OP_EQ <= op && op <= q3::OP_GEU {
            if n < 2 {
                return Some(ExitReason::Fault);
            }
            let b = self.op_stack[n - 1];
            let a = self.op_stack[n - 2];
            self.op_stack.pop();
            self.op_stack.pop();
            proof {
                assert(self.op_stack@ =~= below(*old(self), 2));
            }
            self.pc = if int_branch(op, a, b) {
                arg
            } else {
                next
            };
            None
        } else {
            self.step_data(op, arg, next)
        }
    }

    /// Runs until an instruction hands control back, for at most `budget` instructions;
    /// `None` when the budget ran out first.
    pub fn run(&mut self, budget: u64) -> (r: Option<ExitReason>)
        requires
            old(self).wf(),
        ensures
            final(self).wf(),
            match r {
                None => runs(*old(self), *final(self), budget as nat),
                Some(e) => exists|k: nat, mid: Vm|
                    k < budget && runs(*old(self), mid, k) && step_relation(mid, *final(self), Some(e)),
            },
            final(self).code == old(self).code,
    {
        let ghost start = *self;
        let ghost mut trace = seq![*self];
        let mut k: u64 = 0;
        while k < budget
            invariant
                self.wf(),
                k <= budget,
                start == *old(self),
                self.code == old(self).code,
                trace.len() == k + 1,
                trace[0] == start,
                trace.last() == *self,
                is_trace(trace),
            decreases budget - k,
        {
            let ghost before = *self;
            let r = self.step();
            if let Some(e) = r {
                proof {
                    assert(runs(start, before, k as nat) && step_relation(before, *self, Some(e)));
                }
                return Some(e);
            }
            k = k + 1;
            proof {
                let t0 = trace;
                trace = trace.push(*self);
                assert forall|i: int| 0 <= i < trace.len() - 1 implies step_relation(#[trigger] trace[i], trace[i + 1], None) by {
                    if i < t0.len() - 1 {
                        assert(trace[i] == t0[i] && trace[i + 1] == t0[i + 1]);
                    }
                }
            }
        }
        proof {
            assert(runs(start, *self, budget as nat));
        }
        None
    }

    /// Loads a bytecode file: decodes its code, lays out data, literals and a zeroed BSS in a
    /// fresh memory, and puts the program stack at the top of that image. Leaves `self`
    /// untouched on error.
    pub fn load(&mut self, bytes: &[u8]) -> (r: Result<(), LoadError>)
        ensures
            match loaded(bytes@) {
                Ok((code, init)) => {
                    &&& r is Ok
                    &&& final(self).wf()
                    &&& final(self).code@ == code
                    &&& final(self).code@.len() == header(bytes@, 1)
                    &&& final(self).memory@.subrange(0, init.len() as int) == init
                    &&& final(self).memory@.len() == crate::memory::round_up(init.len() as int)
                    &&& forall|i: int| init.len() <= i < final(self).memory@.len() ==> final(self).memory@[i] == 0
                    &&& final(self).memory.dirty_chunks() == Set::<nat>::empty()
                    &&& final(self).pc == 0
                    &&& final(self).program_stack == init.len()
                    &&& final(self).op_stack@.len() == 0
                },
                Err(e) => r == Err::<(), LoadError>(e) && *final(self) == *old(self),
            },
    {
        let len = bytes.len();
        if len < HEADER_SIZE {
            return Err(LoadError::Truncated);
        }
        let count = le_read_u32(bytes, 4);
        let code_offset = le_read_u32(bytes, 8);
        let data_offset = le_read_u32(bytes, 16);
        let data_length = le_read_u32(bytes, 20);
        let lit_length = le_read_u32(bytes, 24);
        let bss_length = le_read_u32(bytes, 28);
        proof {
            lemma_decode_len(bytes@, code_offset as int, count as nat);
        }
        let code = match decode_code(bytes, code_offset as usize, count) {
            Ok(code) => code,
            Err(e) => return Err(e),
        };
        let init = data_length as u64 + lit_length as u64;
        let total = init + bss_length as u64;
        if total + 64 > u32::MAX as u64 {
            return Err(LoadError::TooLarge);
        }
        if data_offset as u64 + init > len as u64 {
            return Err(LoadError::Truncated);
        }
        let mut data: Vec<u8> = Vec::new();
        let start = data_offset as usize;
        let mut i: usize = start;
        let end = start + init as usize;
        while i < end
            invariant
                len == bytes@.len(),
                start <= i <= end <= len,
                data@ == bytes@.subrange(start as int, i as int),
            decreases end - i,
        {
            data.push(bytes[i]);
            i = i + 1;
            proof {
                assert(data@ =~= bytes@.subrange(start as int, i as int));
            }
        }
        let ghost head = data@;
        let mut j: u32 = 0;
        while j < bss_length
            invariant
                data@ == head + Seq::new(j as nat, |k: int| 0u8),
                head.len() == init,
                total == init + bss_length,
                total + 64 <= u32::MAX,
                j <= bss_length,
            decreases bss_length - j,
        {
            data.push(0);
            j = j + 1;
            proof {
                assert(data@ =~= head + Seq::new(j as nat, |k: int| 0u8));
            }
        }
        let ghost image = data@;
        let memory = Memory::new(data);
        proof {
            assert(image.len() == total);
            assert(crate::memory::round_up(total as int) <= u32::MAX) by {
                assert(total as int % 64 < 64);
            }
        }
        self.code = code;
        self.memory = memory;
        self.pc = 0;
        self.program_stack = total as u32;
        self.op_stack = Vec::new();
        Ok(())
    }

    /// Pushes `result` on the operand stack, as a host service's return value.
    pub fn set_result(&mut self, result: u32)
        ensures
            final(self).op_stack@ == old(self).op_stack@.push(result),
            final(self).code == old(self).code,
            final(self).memory == old(self).memory,
            final(self).pc == old(self).pc,
            final(self).program_stack == old(self).program_stack,
    {
        self.op_stack.push(result);
    }

    /// Continues at `target`, as a float comparison that holds.
    pub fn jump(&mut self, target: u32)
        ensures
            *final(self) == (Vm { pc: target, ..*old(self) }),
    {
        self.pc = target;
    }

    /// The 32-bit value `offset` bytes above the program stack pointer.
    pub fn read_local(&self, offset: u32) -> (r: u32)
        requires
            self.wf(),
            self.program_stack + offset + 4 <= self.memory@.len(),
        ensures
            r == le_u32(self.memory@, self.program_stack + offset),
    {
        self.memory.read(self.program_stack + offset)
    }

    /// Argument `n` of the current call: the cell at `program_stack + 8 + 4n`.
    pub fn read_arg(&self, n: u32) -> (r: u32)
        requires
            self.wf(),
            self.program_stack + 8 + 4 * n + 4 <= self.memory@.len(),
        ensures
            r == le_u32(self.memory@, self.program_stack + 8 + 4 * n),
    {
        self.read_local(n * 4 + 8)
    }

    /// Sets up a call of the function at address 0 with `args`: pushes them (the last one
    /// highest), then a frame holding the caller's stack pointer and the return sentinel.
    pub fn prepare_call(&mut self, args: &[u32])
        requires
            old(self).wf(),
            old(self).program_stack <= old(self).memory@.len(),
            4 * args@.len() + 8 <= old(self).program_stack,
        ensures
            final(self).wf(),
            ({
                let sp = old(self).program_stack as int;
                let nsp = sp - 4 * args@.len() - 8;
                &&& final(self).program_stack == nsp
                &&& final(self).memory@ == put_le_u32(
                    put_le_u32(push_args(old(self).memory@, sp, args@), nsp + 4, sp as u32),
                    nsp,
                    RETURN_SENTINEL,
                )
                &&& final(self).memory.dirty_chunks() == old(self).memory.dirty_chunks().union(
                    chunks_touched(nsp, sp - nsp),
                )
            }),
            final(self).pc == 0,
            final(self).code == old(self).code,
            final(self).op_stack == old(self).op_stack,
    {
        let old_stack = self.program_stack;
        let n = args.len();
        let lo = old_stack - (4 * n as u32 + 8);
        self.memory.set_dirty(lo as usize, (old_stack - lo) as usize);
        let ghost d = self.memory.dirty_chunks();
        proof {
            assert(args@.subrange(0, n as int) =~= args@);
        }
        let mut i = n;
        while i > 0
            invariant
                self.wf(),
                i <= n == args@.len(),
                old_stack == old(self).program_stack,
                old_stack <= self.memory@.len(),
                lo == old_stack - 4 * n - 8,
                self.program_stack == old_stack - 4 * (n - i),
                push_args(self.memory@, self.program_stack as int, args@.subrange(0, i as int))
                    == push_args(old(self).memory@, old_stack as int, args@),
                self.memory.dirty_chunks() == d,
                d == old(self).memory.dirty_chunks().union(chunks_touched(lo as int, old_stack - lo)),
                self.memory@.len() == old(self).memory@.len(),
                self.pc == old(self).pc,
                self.code == old(self).code,
                self.op_stack == old(self).op_stack,
            decreases i,
        {
            let ghost m0 = self.memory@;
            let sp = self.program_stack - 4;
            proof {
                lemma_touched_within(sp as int, 4, lo as int, old_stack - lo);
                assert(args@.subrange(0, i as int).drop_last() =~= args@.subrange(0, i - 1));
            }
            self.memory.write(sp, args[i - 1]);
            self.program_stack = sp;
            i = i - 1;
            proof {
                assert(self.memory.dirty_chunks() =~= d);
                assert(self.memory@ == put_le_u32(m0, sp as int, args@[i as int]));
                assert(self.memory@.len() == m0.len());
            }
        }
        proof {
            assert(args@.subrange(0, 0) =~= Seq::<u32>::empty());
        }
        let sp = self.program_stack - 8;
        proof {
            lemma_touched_within(sp + 4, 4, lo as int, old_stack - lo);
            lemma_touched_within(sp as int, 4, lo as int, old_stack - lo);
        }
        self.memory.write(sp + 4, old_stack);
        self.memory.write(sp, RETURN_SENTINEL);
        proof {
            assert(self.memory.dirty_chunks() =~= d);
        }
        self.program_stack = sp;
        self.pc = 0;
    }

    /// A snapshot of memory (the only state that needs one); see `Memory::take_snapshot`.
    pub fn take_snapshot(&self, baseline: Option<&Arc<MemorySnapshot>>) -> (r: Arc<MemorySnapshot>)
        requires
            self.wf(),
            baseline matches Some(a) ==> (**a matches MemorySnapshot::Baseline(b) ==> b@.len()
                == self.memory@.len()),
        ensures
            crate::memory::fits(*r, self.memory@.len() as int),
            crate::memory::snapshot_taken(self.memory@, self.memory.dirty_chunks(), baseline, *r),
    {
        self.memory.take_snapshot(baseline)
    }

    /// Brings memory back to `snapshot`; see `Memory::restore_from_snapshot`.
    pub fn restore_from_snapshot(&mut self, snapshot: &Arc<MemorySnapshot>)
        requires
            old(self).wf(),
            crate::memory::fits(**snapshot, old(self).memory@.len() as int),
        ensures
            final(self).wf(),
            final(self).memory@ == crate::memory::restored(
                old(self).memory@,
                old(self).memory.dirty_chunks(),
                **snapshot,
            ),
            final(self).memory.dirty_chunks() == old(self).memory.dirty_chunks().union(
                crate::memory::delta_chunks(**snapshot),
            ),
            final(self).code == old(self).code,
            final(self).pc == old(self).pc,
            final(self).program_stack == old(self).program_stack,
            final(self).op_stack == old(self).op_stack,
    {
        self.memory.restore_from_snapshot(snapshot);
    }

    /// The instructions of `step` that move or compute data.
    #[verifier::rlimit(50)]
    fn step_data(&mut self, op: u8, arg: u32, next: u32) -> (r: Option<ExitReason>)
        requires
            old(self).wf(),
            old(self).pc < old(self).code@.len(),
            old(self).pc < u32::MAX,
            old(self).code@[old(self).pc as int] == (Instruction { opcode: op, arg }),
            next == old(self).pc + 1,
            op > q3::OP_GEU,
        ensures
            final(self).wf(),
            step_relation(*old(self), *final(self), r),
            final(self).code == old(self).code,
    {
        let size = self.memory.size() as u64;
        let n = self.op_stack.len();
        let sp = self.program_stack;
        if op == q3::OP_LOAD1 || op == q3::OP_LOAD2 || op == q3::OP_LOAD4 {
            let w: u64 = if op == q3::OP_LOAD1 {
                1
            } else if op == q3::OP_LOAD2 {
                2
            } else {
                4
            };
            if n < 1 {
                return Some(ExitReason::Fault);
            }
            let a = self.op_stack[n - 1];
            if a as u64 + w > size {
                return Some(ExitReason::Fault);
            }
            let value = if op == q3::OP_LOAD1 {
                self.memory.read_u8(a) as u32
            } else if op == q3::OP_LOAD2 {
                self.memory.read_u16(a) as u32
            } else {
                self.memory.read(a)
            };
            self.op_stack.set(n - 1, value);
            proof {
                assert(self.op_stack@ =~= below(*old(self), 1).push(value));
            }
            self.pc = next;
            None
        } else if op == q3::OP_STORE1 || op == q3::OP_STORE2 || op == q3::OP_STORE4 {
            let w: u64 = if op == q3::OP_STORE1 {
                1
            } else if op == q3::OP_STORE2 {
                2
            } else {
                4
            };
            if n < 2 {
                return Some(ExitReason::Fault);
            }
            let value = self.op_stack[n - 1];
            let a = self.op_stack[n - 2];
            if a as u64 + w > size {
                return Some(ExitReason::Fault);
            }
            if op == q3::OP_STORE1 {
                self.memory.write_u8(a, (value % 256) as u8);
            } else if op == q3::OP_STORE2 {
                self.memory.write_u16(a, (value % 65536) as u16);
            } else {
                self.memory.write(a, value);
            }
            self.op_stack.pop();
            self.op_stack.pop();
            proof {
                assert(self.op_stack@ =~= below(*old(self), 2));
            }
            self.pc = next;
            None
        } else if op == q3::OP_ARG {
            let a = sp as u64 + arg as u64;
            if n < 1 || a + 4 > size {
                return Some(ExitReason::Fault);
            }
            let value = self.op_stack[n - 1];
            self.memory.write(a as u32, value);
            self.op_stack.pop();
            self.pc = next;
            None
        } else if op == q3::OP_BLOCK_COPY {
            if n < 2 {
                return Some(ExitReason::Fault);
            }
            let src = self.op_stack[n - 1];
            let dst = self.op_stack[n - 2];
            if src as u64 + arg as u64 > size || dst as u64 + arg as u64 > size {
                return Some(ExitReason::Fault);
            }
            self.memory.memcpy(dst, src, arg);
            self.op_stack.pop();
            self.op_stack.pop();
            proof {
                assert(self.op_stack@ =~= below(*old(self), 2));
            }
            self.pc = next;
            None
        } else if op == q3::OP_SEX8 || op == q3::OP_SEX16 || op == q3::OP_NEGI || op
            == q3::OP_BCOM {
            if n < 1 {
                return Some(ExitReason::Fault);
            }
            let a = self.op_stack[n - 1];
            let value = int_unary(op, a);
            self.op_stack.set(n - 1, value);
            proof {
                assert(self.op_stack@ =~= below(*old(self), 1).push(value));
            }
            self.pc = next;
            None
        } else if q3::OP_ADD <= op && op <= q3::OP_RSHU {
            if n < 2 {
                return Some(ExitReason::Fault);
            }
            let b = self.op_stack[n - 1];
            let a = self.op_stack[n - 2];
            if (op == q3::OP_DIVI || op == q3::OP_DIVU || op == q3::OP_MODI || op == q3::OP_MODU)
                && b == 0 {
                return Some(ExitReason::Fault);
            }
            let value = int_binary(op, a, b);
            self.op_stack.pop();
            self.op_stack.set(n - 2, value);
            proof {
                assert(self.op_stack@ =~= below(*old(self), 2).push(value));
            }
            self.pc = next;
            None
        } else if (q3::OP_EQF <= op && op <= q3::OP_GEF) || (q3::OP_ADDF <= op && op
            <= q3::OP_MULF) {
            if n < 2 {
                return Some(ExitReason::Fault);
            }
            let b = self.op_stack[n - 1];
            let a = self.op_stack[n - 2];
            self.op_stack.pop();
            self.op_stack.pop();
            proof {
                assert(self.op_stack@ =~= below(*old(self), 2));
            }
            self.pc = next;
            Some(ExitReason::Float { opcode: op, arg, a, b })
        } else if op == q3::OP_NEGF || op == q3::OP_CVIF || op == q3::OP_CVFI {
            if n < 1 {
                return Some(ExitReason::Fault);
            }
            let a = self.op_stack[n - 1];
            self.op_stack.pop();
            self.pc = next;
            Some(ExitReason::Float { opcode: op, arg, a, b: 0 })
        } else {
            Some(ExitReason::Fault)
        }
    }
}

/// Each state of `trace` continues to the next by one instruction.
pub open spec fn is_trace(trace: Seq<Vm>) -> bool {
    forall|i: int| 0 <= i < trace.len() - 1 ==> step_relation(#[trigger] trace[i], trace[i + 1], None)
}

/// `steps` instructions from `v0` each continue, and lead to `v1`.
pub open spec fn runs(v0: Vm, v1: Vm, steps: nat) -> bool {
    exists|trace: Seq<Vm>|
        trace.len() == steps + 1 && trace[0] == v0 && trace.last() == v1 && #[trigger] is_trace(trace)
}

/// `m` with `args` pushed as 4-byte cells below `sp`, the last argument highest.
pub open spec fn push_args(m: Seq<u8>, sp: int, args: Seq<u32>) -> Seq<u8>
    decreases args.len(),
{
    if args.len() == 0 {
        m
    } else {
        push_args(put_le_u32(m, sp - 4, args.last()), sp - 4, args.drop_last())
    }
}

/// `count` instructions decoded from `bytes` at `pos`.
fn decode_code(bytes: &[u8], pos: usize, count: u32) -> (r: Result<Vec<Instruction>, LoadError>)
    ensures
        match decode(bytes@, pos as int, count as nat) {
            Ok(code) => r matches Ok(v) && v@ == code,
            Err(e) => r == Err::<Vec<Instruction>, LoadError>(e),
        },
{
    let len = bytes.len();
    let mut code: Vec<Instruction> = Vec::new();
    let mut p = pos;
    let mut i: u32 = 0;
    proof {
        assert(code@ + decode(bytes@, pos as int, count as nat)->Ok_0 =~= decode(bytes@, pos as int, count as nat)->Ok_0);
    }
    while i < count
        invariant
            len == bytes@.len(),
            i <= count,
            decode(bytes@, pos as int, count as nat) == match decode(bytes@, p as int, (count - i) as nat) {
                Ok(rest) => Ok(code@ + rest),
                Err(e) => Err::<Seq<Instruction>, LoadError>(e),
            },
        decreases count - i,
    {
        if p >= len {
            return Err(LoadError::Truncated);
        }
        let op = bytes[p];
        if op > q3::OP_CVFI {
            return Err(LoadError::BadOpcode(op));
        }
        let w: usize = if op == q3::OP_ENTER || op == q3::OP_LEAVE || op == q3::OP_CONST || op
            == q3::OP_LOCAL || (q3::OP_EQ <= op && op <= q3::OP_GEF) || op == q3::OP_BLOCK_COPY {
            4
        } else if op == q3::OP_ARG {
            1
        } else {
            0
        };
        if w > len - p - 1 {
            return Err(LoadError::Truncated);
        }
        let arg: u32 = if w == 4 {
            le_read_u32(bytes, p + 1)
        } else if w == 1 {
            bytes[p + 1] as u32
        } else {
            0
        };
        let ghost before = code@;
        let ins = Instruction { opcode: op, arg };
        code.push(ins);
        proof {
            match decode(bytes@, (p + 1 + w) as int, (count - i - 1) as nat) {
                Ok(rest) => {
                    assert(before + (seq![ins] + rest) =~= code@ + rest);
                },
                Err(e) => {},
            }
        }
        p = p + 1 + w;
        i = i + 1;
    }
    proof {
        assert(code@ + Seq::<Instruction>::empty() =~= code@);
    }
    Ok(code)
}

proof fn lemma_touched_within(a: int, n: int, lo: int, total: int)
    requires
        0 <= lo <= a,
        0 <= n,
        a + n <= lo + total,
    ensures
        chunks_touched(a, n).subset_of(chunks_touched(lo, total)),
{
    assert forall|c: nat| chunks_touched(a, n).contains(c) implies chunks_touched(lo, total).contains(c) by {
        assert(lo / 64 <= a / 64) by (nonlinear_arith)
            requires
                0 <= lo <= a,
        ;
        assert((a + n + 63) / 64 <= (lo + total + 63) / 64) by (nonlinear_arith)
            requires
                a + n <= lo + total,
                0 <= a + n,
        ;
    }
}

fn lt_signed(a: u32, b: u32) -> (r: bool)
    ensures
        r == (s32(a) < s32(b)),
{
    let an = a >= 0x8000_0000;
    let bn = b >= 0x8000_0000;
    if an != bn {
        an
    } else {
        a < b
    }
}

/// `|s32(a)|`, which fits in 32 bits.
fn magnitude(a: u32) -> (r: u32)
    ensures
        r as int == abs(s32(a)),
{
    if a >= 0x8000_0000 {
        0u32.wrapping_sub(a)
    } else {
        a
    }
}

fn int_unary(op: u8, a: u32) -> (r: u32)
    requires
        is_int_unary(op),
    ensures
        r == unary_value(op, a),
{
    if op == q3::OP_SEX8 {
        let b = a % 256;
        if b < 128 {
            b
        } else {
            b + 0xFFFF_FF00
        }
    } else if op == q3::OP_SEX16 {
        let h = a % 65536;
        if h < 32768 {
            h
        } else {
            h + 0xFFFF_0000
        }
    } else if op == q3::OP_NEGI {
        0u32.wrapping_sub(a)
    } else {
        !a
    }
}

fn int_binary(op: u8, a: u32, b: u32) -> (r: u32)
    requires
        is_int_binary(op),
        is_division(op) ==> b != 0,
    ensures
        r == binary_value(op, a, b),
{
    if op == q3::OP_ADD {
        a.wrapping_add(b)
    } else if op == q3::OP_SUB {
        a.wrapping_sub(b)
    } else if op == q3::OP_DIVI {
        let an = a >= 0x8000_0000;
        let bn = b >= 0x8000_0000;
        let q = magnitude(a) / magnitude(b);
        if an != bn {
            0u32.wrapping_sub(q)
        } else {
            q
        }
    } else if op == q3::OP_DIVU {
        a / b
    } else if op == q3::OP_MODI {
        let m = magnitude(a) % magnitude(b);
        if a >= 0x8000_0000 {
            0u32.wrapping_sub(m)
        } else {
            m
        }
    } else if op == q3::OP_MODU {
        a % b
    } else if op == q3::OP_MULI || op == q3::OP_MULU {
        a.wrapping_mul(b)
    } else if op == q3::OP_BAND {
        a & b
    } else if op == q3::OP_BOR {
        a | b
    } else if op == q3::OP_BXOR {
        a ^ b
    } else if op == q3::OP_LSH {
        a.wrapping_shl(b)
    } else if op == q3::OP_RSHI {
        if a < 0x8000_0000 {
            a >> (b % 32)
        } else {
            !((!a) >> (b % 32))
        }
    } else {
        a.wrapping_shr(b)
    }
}

fn int_branch(op: u8, a: u32, b: u32) -> (r: bool)
    requires
        is_int_branch(op),
    ensures
        r == branch_taken(op, a, b),
{
    if op == q3::OP_EQ {
        a == b
    } else if op == q3::OP_NE {
        a != b
    } else if op == q3::OP_LTI {
        lt_signed(a, b)
    } else if op == q3::OP_LEI {
        !lt_signed(b, a)
    } else if op == q3::OP_GTI {
        lt_signed(b, a)
    } else if op == q3::OP_GEI {
        !lt_signed(a, b)
    } else if op == q3::OP_LTU {
        a < b
    } else if op == q3::OP_LEU {
        a <= b
    } else if op == q3::OP_GTU {
        a > b
    } else {
        a >= b
    }
}

} // verus!
