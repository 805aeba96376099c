use std::marker::PhantomData;
use std::sync::Arc;

use vstd::prelude::*;
use vstd::string::StringExecFns;

use crate::memory::{
    c_string_at, chunks_touched, fits, le_u32, put_le_u32, restored, snapshot_taken, spliced,
    strncpy_result, strncpy_source_ok, MemorySnapshot,
};
use crate::q3;
use crate::q3::{usercmd_bytes, UserCmd, USERCMD_SIZE};
use crate::vm::{push_args, step_relation, ExitReason, Vm, RETURN_SENTINEL};

verus! {

/// `c` in lower case if it is an ASCII capital letter.
pub open spec fn ascii_lower_char(c: char) -> char {
    if 'A' <= c && c <= 'Z' {
        ((c as u32) + 32) as char
    } else {
        c
    }
}

/// `s` with its ASCII capitals in lower case.
pub open spec fn ascii_lower(s: Seq<char>) -> Seq<char> {
    s.map_values(|c: char| ascii_lower_char(c))
}

/// Relies on `str::to_ascii_lowercase`: ASCII capitals become lower case, every other
/// character stays.
#[verifier::external_body]
fn lowercase(s: &str) -> (r: String)
    ensures
        r@ == ascii_lower(s@),
{
    s.to_ascii_lowercase()
}

pub open spec fn is_digit(c: char) -> bool {
    '0' <= c && c <= '9'
}

/// The value of a string of decimal digits.
pub open spec fn digits_value(s: Seq<char>) -> int
    decreases s.len(),
{
    if s.len() == 0 {
        0
    } else {
        digits_value(s.drop_last()) * 10 + (s.last() as u32 - '0' as u32)
    }
}

/// What `str::parse::<i32>` accepts: an optional sign, then one or more decimal digits whose
/// value fits.
pub open spec fn parsed_i32(s: Seq<char>) -> Option<i32> {
    let signed = s.len() > 0 && (s[0] == '-' || s[0] == '+');
    let body = if signed {
        s.drop_first()
    } else {
        s
    };
    let v = if s.len() > 0 && s[0] == '-' {
        -digits_value(body)
    } else {
        digits_value(body)
    };
    if body.len() > 0 && (forall|i: int| 0 <= i < body.len() ==> is_digit(#[trigger] body[i]))
        && i32::MIN <= v <= i32::MAX {
        Some(v as i32)
    } else {
        None
    }
}

/// Relies on `str::parse::<i32>`: an optional `+` or `-` followed by decimal digits, in range.
#[verifier::external_body]
fn parse_i32(s: &str) -> (r: Option<i32>)
    ensures
        r == parsed_i32(s@),
{
    s.parse::<i32>().ok()
}

/// The value stored under `key`: the last entry with that key.
pub open spec fn lookup(vars: Seq<(String, String)>, key: Seq<char>) -> Option<Seq<char>>
    decreases vars.len(),
{
    if vars.len() == 0 {
        None
    } else if vars.last().0@ == key {
        Some(vars.last().1@)
    } else {
        lookup(vars.drop_last(), key)
    }
}

proof fn lemma_lookup_last(vars: Seq<(String, String)>, key: Seq<char>, i: int)
    requires
        0 <= i < vars.len(),
        vars[i].0@ == key,
        forall|j: int| i < j < vars.len() ==> (#[trigger] vars[j]).0@ != key,
    ensures
        lookup(vars, key) == Some(vars[i].1@),
    decreases vars.len(),
{
    if i < vars.len() - 1 {
        lemma_lookup_last(vars.drop_last(), key, i);
    }
}

proof fn lemma_lookup_none(vars: Seq<(String, String)>, key: Seq<char>)
    requires
        forall|j: int| 0 <= j < vars.len() ==> (#[trigger] vars[j]).0@ != key,
    ensures
        lookup(vars, key).is_none(),
    decreases vars.len(),
{
    if vars.len() > 0 {
        lemma_lookup_none(vars.drop_last(), key);
    }
}

proof fn lemma_lookup_update(vars: Seq<(String, String)>, i: int, e: (String, String), key: Seq<char>)
    requires
        0 <= i < vars.len(),
        vars[i].0@ == e.0@,
        key != e.0@,
    ensures
        lookup(vars.update(i, e), key) == lookup(vars, key),
    decreases vars.len(),
{
    if i < vars.len() - 1 {
        assert(vars.update(i, e).drop_last() =~= vars.drop_last().update(i, e));
        lemma_lookup_update(vars.drop_last(), i, e, key);
    } else {
        assert(vars.update(i, e).drop_last() =~= vars.drop_last());
    }
}

/// Configuration variables: string values under case-insensitive names, and the names in
/// the order the game registered them (a name's position is its handle).
#[derive(Clone)]
pub struct Cvars {
    vars: Vec<(String, String)>,
    registered: Vec<String>,
}

impl Cvars {
    /// The value under the lower-case name `key`.
    pub closed spec fn value_of(&self, key: Seq<char>) -> Option<Seq<char>> {
        lookup(self.vars@, key)
    }

    /// The registered names, lower-cased, by handle.
    pub closed spec fn handles(&self) -> Seq<Seq<char>> {
        self.registered@.map_values(|s: String| s@)
    }

    pub fn new() -> (r: Self)
        ensures
            forall|k: Seq<char>| r.value_of(k).is_none(),
            r.handles().len() == 0,
    {
        Cvars { vars: Vec::new(), registered: Vec::new() }
    }

    /// The index of the last entry under `key`, if any.
    fn find(&self, key: &String) -> (r: Option<usize>)
        ensures
            match r {
                Some(i) => i < self.vars@.len() && self.vars@[i as int].0@ == key@ && forall|j: int|
                    i < j < self.vars@.len() ==> (#[trigger] self.vars@[j]).0@ != key@,
                None => forall|j: int| 0 <= j < self.vars@.len() ==> (#[trigger] self.vars@[j]).0@ != key@,
            },
    {
        let mut i = self.vars.len();
        while i > 0
            invariant
                i <= self.vars@.len(),
                forall|j: int| i <= j < self.vars@.len() ==> (#[trigger] self.vars@[j]).0@ != key@,
            decreases i,
        {
            if self.vars[i - 1].0 == *key {
                return Some(i - 1);
            }
            i = i - 1;
        }
        None
    }

    /// The value of `name`, or the empty string where it has none.
    pub fn get_str(&self, name: &str) -> (r: &str)
        ensures
            r@ == match self.value_of(ascii_lower(name@)) {
                Some(v) => v,
                None => Seq::<char>::empty(),
            },
    {
        let key = lowercase(name);
        match self.find(&key) {
            Some(i) => {
                proof {
                    lemma_lookup_last(self.vars@, key@, i as int);
                }
                self.vars[i].1.as_str()
            },
            None => {
                proof {
                    lemma_lookup_none(self.vars@, key@);
                    reveal_strlit("");
                }
                ""
            },
        }
    }

    /// The value of `name` read as a decimal integer, or zero where it is not one.
    pub fn get_i32(&self, name: &str) -> (r: i32)
        ensures
            r == match parsed_i32(
                match self.value_of(ascii_lower(name@)) {
                    Some(v) => v,
                    None => Seq::<char>::empty(),
                },
            ) {
                Some(v) => v,
                None => 0i32,
            },
    {
        match parse_i32(self.get_str(name)) {
            Some(v) => v,
            None => 0,
        }
    }

    /// Stores `value` under `name`.
    pub fn set(&mut self, name: &str, value: String)
        ensures
            forall|k: Seq<char>| #[trigger] final(self).value_of(k) == if k == ascii_lower(name@) {
                Some(value@)
            } else {
                old(self).value_of(k)
            },
            final(self).handles() == old(self).handles(),
    {
        let key = lowercase(name);
        self.store(key, value);
        proof {
            assert(self.handles() =~= old(self).handles());
        }
    }

    fn store(&mut self, key: String, value: String)
        ensures
            forall|k: Seq<char>| #[trigger] final(self).value_of(k) == if k == key@ {
                Some(value@)
            } else {
                old(self).value_of(k)
            },
            final(self).registered == old(self).registered,
    {
        let ghost kv = key@;
        let ghost vv = value@;
        match self.find(&key) {
            Some(i) => {
                self.vars.set(i, (key, value));
                proof {
                    assert forall|k: Seq<char>| #[trigger] lookup(self.vars@, k) == if k == kv {
                        Some(vv)
                    } else {
                        lookup(old(self).vars@, k)
                    } by {
                        if k == kv {
                            lemma_lookup_last(self.vars@, k, i as int);
                        } else {
                            lemma_lookup_update(old(self).vars@, i as int, self.vars@[i as int], k);
                        }
                    }
                }
            },
            None => {
                self.vars.push((key, value));
                proof {
                    assert forall|k: Seq<char>| #[trigger] lookup(self.vars@, k) == if k == kv {
                        Some(vv)
                    } else {
                        lookup(old(self).vars@, k)
                    } by {
                        assert(self.vars@.drop_last() =~= old(self).vars@);
                    }
                }
            },
        }
    }

    /// Registers `name` with a default `value` (kept only where the name has no value yet),
    /// and returns its handle.
    pub fn register(&mut self, name: String, value: String) -> (handle: usize)
        ensures
            handle == old(self).handles().len(),
            final(self).handles() == old(self).handles().push(ascii_lower(name@)),
            forall|k: Seq<char>| #[trigger] final(self).value_of(k) == if k == ascii_lower(name@)
                && old(self).value_of(k).is_none() {
                Some(value@)
            } else {
                old(self).value_of(k)
            },
    {
        let handle = self.registered.len();
        let key = lowercase(name.as_str());
        self.registered.push(lowercase(name.as_str()));
        proof {
            assert(self.handles() =~= old(self).handles().push(ascii_lower(name@)));
        }
        match self.find(&key) {
            Some(i) => {
                proof {
                    lemma_lookup_last(self.vars@, key@, i as int);
                }
            },
            None => {
                proof {
                    lemma_lookup_none(self.vars@, key@);
                }
                let ghost h = self.handles();
                self.store(key, value);
                proof {
                    assert(self.handles() =~= h);
                }
            },
        }
        handle
    }
}

impl Default for Cvars {
    fn default() -> (r: Self)
        ensures
            forall|k: Seq<char>| r.value_of(k).is_none(),
            r.handles().len() == 0,
    {
        Cvars::new()
    }
}

/// Where the game keeps an array of `T` in its memory: `count` elements of `sizeof` bytes
/// from `address`.
pub struct GameData<T> {
    pub address: u32,
    pub count: u32,
    pub sizeof: u32,
    pub phantom: PhantomData<T>,
}

impl<T> Clone for GameData<T> {
    fn clone(&self) -> (r: Self)
        ensures
            r.address == self.address,
            r.count == self.count,
            r.sizeof == self.sizeof,
    {
        GameData { address: self.address, count: self.count, sizeof: self.sizeof, phantom: PhantomData }
    }
}

impl<T> Copy for GameData<T> {

}

impl<T> GameData<T> {
    pub fn new(address: u32, count: u32, sizeof: u32) -> (r: Self)
        ensures
            r.address == address,
            r.count == count,
            r.sizeof == sizeof,
    {
        GameData { address, count, sizeof, phantom: PhantomData }
    }

    /// The index of the element at `address`.
    pub fn index_of(&self, address: u32) -> (r: u32)
        requires
            self.address <= address,
            self.sizeof > 0,
        ensures
            r == (address - self.address) / self.sizeof as int,
    {
        (address - self.address) / self.sizeof
    }

    /// The address of element `index`.
    pub fn address(&self, index: u32) -> (r: u32)
        requires
            self.address + index * self.sizeof <= u32::MAX,
        ensures
            r == self.address + index * self.sizeof,
    {
        proof {
            assert(index * self.sizeof <= u32::MAX) by (nonlinear_arith)
                requires
                    self.address + index * self.sizeof <= u32::MAX,
                    self.address >= 0,
            ;
        }
        self.address + index * self.sizeof
    }
}

/// What decoding `bytes` as UTF-8 gives, with each invalid sequence replaced by U+FFFD.
pub uninterp spec fn utf8_lossy(bytes: Seq<u8>) -> Seq<char>;

/// Relies on `String::from_utf8_lossy`: the text of `bytes`, a function of the bytes alone.
#[verifier::external_body]
fn lossy(bytes: &[u8]) -> (r: String)
    ensures
        r@ == utf8_lossy(bytes@),
{
    String::from_utf8_lossy(bytes).into_owned()
}

/// `a` minus the 32 bits `b` read as a signed value, wrapping.
pub open spec fn wrap_sub_i32(a: i32, b: u32) -> i32 {
    let d = a - crate::vm::s32(b);
    if d > i32::MAX {
        (d - 0x1_0000_0000) as i32
    } else if d < i32::MIN {
        (d + 0x1_0000_0000) as i32
    } else {
        d as i32
    }
}

fn sub_i32(a: i32, b: u32) -> (r: i32)
    ensures
        r == wrap_sub_i32(a, b),
{
    let sb: i64 = if b >= 0x8000_0000 {
        b as i64 - 0x1_0000_0000
    } else {
        b as i64
    };
    let d: i64 = a as i64 - sb;
    if d > i32::MAX as i64 {
        (d - 0x1_0000_0000) as i32
    } else if d < i32::MIN as i64 {
        (d + 0x1_0000_0000) as i32
    } else {
        d as i32
    }
}

/// How a host service call ended.
#[derive(Clone, Copy, Debug, PartialEq, Eq, Structural)]
pub enum Serviced {
    /// Done here; its result is on the operand stack.
    Done,
    /// It needs the host: the map library, floating point, or output.
    Host,
    /// Its arguments point outside memory.
    Fault,
}

/// Bytes in the game's `qtime_t`: nine 32-bit fields.
pub const QTIME_SIZE: u32 = 36;

/// Argument `n` of the syscall in progress in `vm`.
pub open spec fn arg_of(vm: Vm, n: int) -> u32 {
    le_u32(vm.memory@, vm.program_stack + 8 + 4 * n)
}

/// Whether the first `n` arguments of the syscall in progress lie in memory.
pub open spec fn args_in_memory(vm: Vm, n: int) -> bool {
    vm.program_stack + 8 + 4 * n <= vm.memory@.len()
}

/// The C string at argument `n` of `vm`'s syscall in progress, where there is one.
pub open spec fn c_string_arg(vm: Vm, n: int, s: Seq<u8>) -> bool {
    let a = arg_of(vm, n) as int;
    c_string_at(vm.memory@, a, a + s.len()) && s == vm.memory@.subrange(a, a + s.len())
}

/// The syscalls that `handle_syscall` carries out itself.
pub open spec fn serviced_here(id: u32) -> bool {
    id == q3::G_MILLISECONDS || id == q3::G_CVAR_UPDATE || id == q3::G_FS_FOPEN_FILE || id
        == q3::G_FS_READ || id == q3::G_FS_WRITE || id == q3::G_FS_FCLOSE_FILE || id
        == q3::G_SEND_SERVER_COMMAND || id == q3::G_SET_CONFIGSTRING || id == q3::G_CVAR_SET
        || id == q3::G_CVAR_VARIABLE_INTEGER_VALUE || id == q3::G_CVAR_VARIABLE_STRING_BUFFER || id
        == q3::G_GET_CONFIGSTRING || id == q3::G_GET_USERINFO || id == q3::G_LOCATE_GAME_DATA || id
        == q3::G_UNLINKENTITY || id == q3::G_GET_USERCMD || id == q3::G_REAL_TIME || id
        == q3::TRAP_MEMSET || id == q3::TRAP_MEMCPY || id == q3::TRAP_STRNCPY
}

/// `g1`'s VM is `g0`'s with `result` pushed and the given memory.
pub open spec fn vm_after(g0: Game, g1: Game, mem: Seq<u8>, dirty: Set<nat>, result: u32) -> bool {
    &&& g1.vm.code == g0.vm.code
    &&& g1.vm.pc == g0.vm.pc
    &&& g1.vm.program_stack == g0.vm.program_stack
    &&& g1.vm.op_stack@ == g0.vm.op_stack@.push(result)
    &&& g1.vm.memory@ == mem
    &&& g1.vm.memory.dirty_chunks() == dirty
}

/// The host-side state of `g1` is that of `g0`.
pub open spec fn host_same(g0: Game, g1: Game) -> bool {
    &&& g1.cvars == g0.cvars
    &&& g1.usercmd == g0.usercmd
    &&& g1.linked_entities == g0.linked_entities
    &&& g1.g_entities == g0.g_entities
    &&& g1.clients == g0.clients
    &&& g1.time == g0.time
    &&& g1.init_time == g0.init_time
}

/// The arguments of a syscall carried out here lie in memory, and so do the ranges and strings
/// they point to.
pub open spec fn syscall_ok(g: Game, id: u32) -> bool {
    let vm = g.vm;
    let len = vm.memory@.len();
    let a0 = arg_of(vm, 0) as int;
    let a1 = arg_of(vm, 1) as int;
    let a2 = arg_of(vm, 2) as int;
    if id == q3::G_CVAR_SET {
        args_in_memory(vm, 2) && (exists|b: Seq<u8>| c_string_arg(vm, 0, b)) && (exists|b: Seq<u8>|
            c_string_arg(vm, 1, b))
    } else if id == q3::G_CVAR_VARIABLE_INTEGER_VALUE {
        args_in_memory(vm, 1) && exists|b: Seq<u8>| c_string_arg(vm, 0, b)
    } else if id == q3::G_CVAR_VARIABLE_STRING_BUFFER || id == q3::G_GET_CONFIGSTRING || id
        == q3::G_GET_USERINFO {
        args_in_memory(vm, 2) && a1 < len
    } else if id == q3::G_LOCATE_GAME_DATA {
        args_in_memory(vm, 5)
    } else if id == q3::G_UNLINKENTITY {
        args_in_memory(vm, 1)
    } else if id == q3::G_GET_USERCMD {
        args_in_memory(vm, 2) && a1 + USERCMD_SIZE <= len
    } else if id == q3::G_REAL_TIME {
        args_in_memory(vm, 1) && a0 + QTIME_SIZE <= len
    } else if id == q3::TRAP_MEMSET {
        args_in_memory(vm, 3) && a0 + a2 <= len
    } else if id == q3::TRAP_MEMCPY {
        args_in_memory(vm, 3) && a0 + a2 <= len && a1 + a2 <= len
    } else if id == q3::TRAP_STRNCPY {
        args_in_memory(vm, 3) && a0 + a2 <= len && strncpy_source_ok(vm.memory@, a0, a1, a2)
    } else {
        true
    }
}

/// What a syscall carried out here does to the game.
pub open spec fn syscall_done(g0: Game, g1: Game, id: u32) -> bool {
    let vm = g0.vm;
    let m = vm.memory@;
    let d = vm.memory.dirty_chunks();
    let a0 = arg_of(vm, 0);
    let a1 = arg_of(vm, 1);
    let a2 = arg_of(vm, 2);
    if id == q3::G_CVAR_SET {
        &&& vm_after(g0, g1, m, d, 0)
        &&& exists|nb: Seq<u8>, vb: Seq<u8>|
            c_string_arg(vm, 0, nb) && c_string_arg(vm, 1, vb) && forall|k: Seq<char>|
                #[trigger] g1.cvars.value_of(k) == if k == ascii_lower(utf8_lossy(nb)) {
                    Some(utf8_lossy(vb))
                } else {
                    g0.cvars.value_of(k)
                }
        &&& g1.cvars.handles() == g0.cvars.handles()
        &&& g1.usercmd == g0.usercmd && g1.linked_entities == g0.linked_entities
        &&& g1.g_entities == g0.g_entities && g1.clients == g0.clients
        &&& g1.time == g0.time && g1.init_time == g0.init_time
    } else if id == q3::G_CVAR_VARIABLE_INTEGER_VALUE {
        &&& host_same(g0, g1)
        &&& exists|nb: Seq<u8>|
            c_string_arg(vm, 0, nb) && vm_after(
                g0,
                g1,
                m,
                d,
                match parsed_i32(
                    match g0.cvars.value_of(ascii_lower(utf8_lossy(nb))) {
                        Some(v) => v,
                        None => Seq::<char>::empty(),
                    },
                ) {
                    Some(v) => v as u32,
                    None => 0u32,
                },
            )
    } else if id == q3::G_CVAR_VARIABLE_STRING_BUFFER || id == q3::G_GET_CONFIGSTRING || id
        == q3::G_GET_USERINFO {
        host_same(g0, g1) && vm_after(
            g0,
            g1,
            m.update(a1 as int, 0),
            d.union(chunks_touched(a1 as int, 1)),
            0,
        )
    } else if id == q3::G_LOCATE_GAME_DATA {
        &&& vm_after(g0, g1, m, d, 0)
        &&& g1.g_entities matches Some(e) && e.address == a0 && e.count == a1 && e.sizeof == a2
        &&& g1.clients matches Some(c) && c.address == arg_of(vm, 3) && c.count == q3::MAX_CLIENTS
            && c.sizeof == arg_of(vm, 4)
        &&& g1.cvars == g0.cvars && g1.usercmd == g0.usercmd
        &&& g1.linked_entities == g0.linked_entities
        &&& g1.time == g0.time && g1.init_time == g0.init_time
    } else if id == q3::G_UNLINKENTITY {
        &&& vm_after(g0, g1, m, d, 0)
        &&& g1.linked_entities@.to_set() == g0.linked_entities@.to_set().remove(a0)
        &&& g1.cvars == g0.cvars && g1.usercmd == g0.usercmd
        &&& g1.g_entities == g0.g_entities && g1.clients == g0.clients
        &&& g1.time == g0.time && g1.init_time == g0.init_time
    } else if id == q3::G_GET_USERCMD {
        host_same(g0, g1) && vm_after(
            g0,
            g1,
            spliced(m, a1 as int, usercmd_bytes(g0.usercmd)),
            d.union(chunks_touched(a1 as int, USERCMD_SIZE as int)),
            0,
        )
    } else if id == q3::G_REAL_TIME {
        host_same(g0, g1) && vm_after(
            g0,
            g1,
            spliced(m, a0 as int, Seq::new(QTIME_SIZE as nat, |i: int| 0u8)),
            d.union(chunks_touched(a0 as int, QTIME_SIZE as int)),
            0,
        )
    } else if id == q3::TRAP_MEMSET {
        host_same(g0, g1) && vm_after(
            g0,
            g1,
            spliced(m, a0 as int, Seq::new(a2 as nat, |i: int| (a1 % 256) as u8)),
            d.union(chunks_touched(a0 as int, a2 as int)),
            0,
        )
    } else if id == q3::TRAP_MEMCPY {
        host_same(g0, g1) && vm_after(
            g0,
            g1,
            spliced(m, a0 as int, m.subrange(a1 as int, a1 + a2)),
            d.union(chunks_touched(a0 as int, a2 as int)),
            0,
        )
    } else if id == q3::TRAP_STRNCPY {
        host_same(g0, g1) && vm_after(
            g0,
            g1,
            strncpy_result(m, a0 as int, a1 as int, a2 as int),
            d.union(chunks_touched(a0 as int, a2 as int)),
            a0,
        )
    } else {
        // The rest return zero and change nothing else.
        host_same(g0, g1) && vm_after(g0, g1, m, d, 0)
    }
}

/// Where a call into the game module stands.
#[derive(Clone, Copy, Debug, PartialEq, Eq, Structural)]
pub enum CallState {
    /// The entry point returned this value.
    Returned(u32),
    /// The bytecode needs the host: a syscall not carried out here, or a float instruction.
    Host(ExitReason),
    /// The bytecode or a syscall's arguments went wrong.
    Fault,
    /// The instruction budget ran out; resume to go on.
    Running,
}

/// What one instruction of a call did.
#[derive(Clone, Copy, Debug, PartialEq, Eq, Structural)]
enum Advance {
    Continue,
    Stop(CallState),
}

/// `g` running on `vm`.
pub open spec fn with_vm(g: Game, vm: Vm) -> Game {
    Game { vm, ..g }
}

/// One instruction of a call that goes on: it continues in the VM, or it is a syscall that
/// `handle_syscall` carries out.
pub open spec fn game_step(g0: Game, g1: Game) -> bool {
    ||| step_relation(g0.vm, g1.vm, None) && g1 == with_vm(g0, g1.vm)
    ||| exists|mid: Vm, id: u32|
        step_relation(g0.vm, mid, Some(ExitReason::Syscall(id))) && serviced_here(id) && syscall_ok(
            with_vm(g0, mid),
            id,
        ) && syscall_done(with_vm(g0, mid), g1, id)
}

/// Each state of `trace` goes on to the next by one `game_step`.
pub open spec fn game_trace(trace: Seq<Game>) -> bool {
    forall|i: int| 0 <= i < trace.len() - 1 ==> #[trigger] game_step(trace[i], trace[i + 1])
}

/// `steps` instructions from `g0` each go on, and lead to `g1`.
pub open spec fn game_runs(g0: Game, g1: Game, steps: nat) -> bool {
    exists|trace: Seq<Game>|
        trace.len() == steps + 1 && trace[0] == g0 && trace.last() == g1 && #[trigger] game_trace(
            trace,
        )
}

/// How the instruction at `g0` ends the call, in state `g1`, with `cs`.
pub open spec fn stop_relation(g0: Game, g1: Game, cs: CallState) -> bool {
    match cs {
        CallState::Returned(v) => exists|mid: Vm|
            step_relation(g0.vm, mid, Some(ExitReason::Return)) && mid.op_stack@.len() > 0 && v
                == mid.op_stack@.last() && g1.vm.op_stack@ == mid.op_stack@.drop_last()
                && g1.vm.memory == mid.memory && g1.vm.pc == mid.pc && g1.vm.program_stack
                == mid.program_stack && g1.vm.code == mid.code && host_same(g0, g1),
        CallState::Host(e) => {
            &&& step_relation(g0.vm, g1.vm, Some(e))
            &&& host_same(g0, g1)
            &&& match e {
                ExitReason::Syscall(id) => !serviced_here(id),
                ExitReason::Float { .. } => true,
                _ => false,
            }
        },
        CallState::Fault => {
            ||| exists|mid: Vm| step_relation(g0.vm, mid, Some(ExitReason::Fault))
            ||| exists|mid: Vm|
                step_relation(g0.vm, mid, Some(ExitReason::Return)) && mid.op_stack@.len() == 0
            ||| exists|mid: Vm, id: u32|
                step_relation(g0.vm, mid, Some(ExitReason::Syscall(id))) && serviced_here(id)
                    && !syscall_ok(with_vm(g0, mid), id)
        },
        CallState::Running => false,
    }
}

/// Byte offset of `delta_angles` in the game's `playerState_t`.
pub const DELTA_ANGLES_OFFSET: u32 = 56;

/// Simulation milliseconds per frame.
pub const FRAME_MSEC: i32 = 8;

/// A saved game: a memory snapshot and the host state that goes with it.
pub struct GameSnapshot {
    pub vm: Arc<MemorySnapshot>,
    pub g_entities: Option<GameData<()>>,
    pub clients: Option<GameData<()>>,
    pub time: i32,
    pub linked_entities: Vec<u32>,
}

/// Bytes in the game's `vmCvar_t`: handle, modification count, float value, integer value,
/// then 256 bytes of text.
pub const VM_CVAR_SIZE: u32 = 272;

/// Offset of `vmCvar_t`'s integer value.
pub const VM_CVAR_INTEGER: u32 = 12;

/// Offset of `vmCvar_t`'s text.
pub const VM_CVAR_STRING: u32 = 16;

/// Bytes of `vmCvar_t`'s text.
pub const VM_CVAR_STRING_SIZE: usize = 256;

/// The integer that `get_i32` reads from the value under `key`.
pub open spec fn int_value(cvars: Cvars, key: Seq<char>) -> i32 {
    match parsed_i32(
        match cvars.value_of(key) {
            Some(v) => v,
            None => Seq::<char>::empty(),
        },
    ) {
        Some(v) => v,
        None => 0i32,
    }
}

/// The low 32 bits of `n`.
pub open spec fn low32(n: int) -> u32 {
    (n % 0x1_0000_0000) as u32
}

/// The arguments of a cvar registration lie in memory: the `vmCvar_t` (unless null), the name
/// and the default value.
pub open spec fn register_ok(g: Game) -> bool {
    let vm = g.vm;
    let a0 = arg_of(vm, 0) as int;
    &&& args_in_memory(vm, 3)
    &&& exists|b: Seq<u8>| c_string_arg(vm, 1, b)
    &&& exists|b: Seq<u8>| c_string_arg(vm, 2, b)
    &&& a0 != 0 ==> a0 + VM_CVAR_SIZE <= vm.memory@.len()
}

/// A registration of cvar `name` (lower-cased: `key`) with default `default` carried out from
/// `g0` to `g1`: the name takes the next handle and keeps any value it had, and a non-null
/// `vmCvar_t` gets the handle, the integer value and the first 256 bytes of the text (its
/// float value is left to the host).
pub open spec fn register_done(g0: Game, g1: Game, name: Seq<char>, default: Seq<char>) -> bool {
    let vm = g0.vm;
    let m = vm.memory@;
    let d = vm.memory.dirty_chunks();
    let a0 = arg_of(vm, 0) as int;
    let key = ascii_lower(name);
    let h = g0.cvars.handles().len() as int;
    let text = match g1.cvars.value_of(key) {
        Some(v) => v,
        None => Seq::<char>::empty(),
    };
    let bytes = vstd::utf8::encode_utf8(text);
    let k = if bytes.len() < VM_CVAR_STRING_SIZE { bytes.len() as int } else { VM_CVAR_STRING_SIZE as int };
    &&& g1.cvars.handles() == g0.cvars.handles().push(key)
    &&& forall|q: Seq<char>| #[trigger] g1.cvars.value_of(q) == if q == key && g0.cvars.value_of(q).is_none() {
        Some(default)
    } else {
        g0.cvars.value_of(q)
    }
    &&& g1.usercmd == g0.usercmd && g1.linked_entities == g0.linked_entities
    &&& g1.g_entities == g0.g_entities && g1.clients == g0.clients
    &&& g1.time == g0.time && g1.init_time == g0.init_time
    &&& if a0 == 0 {
        vm_after(g0, g1, m, d, 0)
    } else {
        vm_after(
            g0,
            g1,
            spliced(
                put_le_u32(put_le_u32(m, a0, low32(h)), a0 + VM_CVAR_INTEGER, int_value(g1.cvars, key) as u32),
                a0 + VM_CVAR_STRING,
                bytes.subrange(0, k),
            ),
            d.union(chunks_touched(a0, 4)).union(chunks_touched(a0 + VM_CVAR_INTEGER, 4)).union(
                chunks_touched(a0 + VM_CVAR_STRING, k),
            ),
            0,
        )
    }
}

/// The host's error for a refused connection whose reason reads `reason`.
pub open spec fn connect_failed(reason: Seq<char>) -> Seq<char> {
    "connect failed: "@ + reason
}

/// Where the game's initialisation stands: `init` runs the game's init, lets it settle for
/// `SETTLE_FRAMES` frames of `SETTLE_MSEC` each, then connects and begins client 0.
#[derive(Clone, Copy, Debug, PartialEq, Eq, Structural)]
pub enum InitPhase {
    Start,
    /// `n` settle frames are done.
    Settle(u8),
    Connect,
    Begin,
    Ready,
}

/// Frames the game runs after its init before a client joins.
pub const SETTLE_FRAMES: u8 = 3;

/// Milliseconds of each settle frame.
pub const SETTLE_MSEC: i32 = 100;

/// The entry-point call that `phase` makes, if any.
pub open spec fn init_call_spec(phase: InitPhase, time: i32) -> Option<Seq<u32>> {
    match phase {
        InitPhase::Start => Some(seq![q3::GAME_INIT, 0u32, 0u32, 0u32, 0u32, 0u32, 0u32, 0u32, 0u32, 0u32]),
        InitPhase::Settle(_) => Some(seq![q3::GAME_RUN_FRAME, time as u32, 0u32, 0u32, 0u32, 0u32, 0u32, 0u32, 0u32, 0u32]),
        InitPhase::Connect => Some(seq![q3::GAME_CLIENT_CONNECT, 0u32, 1u32, 0u32, 0u32, 0u32, 0u32, 0u32, 0u32, 0u32]),
        InitPhase::Begin => Some(seq![q3::GAME_CLIENT_BEGIN, 0u32, 0u32, 0u32, 0u32, 0u32, 0u32, 0u32, 0u32, 0u32]),
        InitPhase::Ready => None,
    }
}

/// The game adapter: the VM running the game module and the host state its syscalls use.
#[derive(Clone)]
pub struct Game {
    pub cvars: Cvars,
    pub vm: Vm,
    pub g_entities: Option<GameData<()>>,
    pub clients: Option<GameData<()>>,
    pub init_time: i32,
    pub time: i32,
    pub usercmd: UserCmd,
    /// The addresses of the entities linked for spatial queries, each once.
    pub linked_entities: Vec<u32>,
}

impl Game {
    pub open spec fn wf(&self) -> bool {
        self.vm.wf()
    }

    /// A game around `vm`, before initialisation.
    pub fn new(vm: Vm) -> (r: Self)
        ensures
            r.vm == vm,
            r.time == 0,
            r.init_time == 0,
            r.g_entities.is_none(),
            r.clients.is_none(),
            r.linked_entities@.len() == 0,
    {
        Game {
            cvars: Cvars::new(),
            vm,
            g_entities: None,
            clients: None,
            init_time: 0,
            time: 0,
            usercmd: UserCmd::zeroed(),
            linked_entities: Vec::new(),
        }
    }

    /// Simulation time since initialisation, in milliseconds.
    pub fn relative_time(&self) -> (r: i32)
        requires
            i32::MIN <= self.time - self.init_time <= i32::MAX,
        ensures
            r == self.time - self.init_time,
    {
        self.time - self.init_time
    }

    /// Frames simulated since initialisation (8 ms each).
    pub fn frame(&self) -> (r: usize)
        requires
            0 <= self.time - self.init_time <= i32::MAX,
            (self.time - self.init_time) % 8 == 0,
        ensures
            r == (self.time - self.init_time) / 8,
    {
        ((self.time - self.init_time) / 8) as usize
    }

    /// The ten argument cells of a call of game entry point `export` with `args`.
    pub fn entry_args(export: u32, a0: u32, a1: u32, a2: u32) -> (r: [u32; 10])
        ensures
            r@ == seq![export, a0, a1, a2, 0u32, 0u32, 0u32, 0u32, 0u32, 0u32],
    {
        let r = [export, a0, a1, a2, 0, 0, 0, 0, 0, 0];
        proof {
            assert(r@ =~= seq![export, a0, a1, a2, 0u32, 0u32, 0u32, 0u32, 0u32, 0u32]);
        }
        r
    }

    /// Argument `n` of the syscall in progress, if it lies in memory.
    fn arg(&self, n: u32) -> (r: Option<u32>)
        requires
            self.vm.wf(),
            n < 16,
        ensures
            r == (if args_in_memory(self.vm, n + 1) {
                Some(arg_of(self.vm, n as int))
            } else {
                None::<u32>
            }),
    {
        let at = self.vm.program_stack as u64 + 8 + 4 * n as u64;
        if at + 4 <= self.vm.memory.size() as u64 {
            Some(self.vm.read_arg(n))
        } else {
            None
        }
    }

    /// The C string that argument `n` points to, read as text.
    fn string_arg(&self, n: u32) -> (r: Option<String>)
        requires
            self.vm.wf(),
            n < 16,
        ensures
            r matches Some(s) ==> args_in_memory(self.vm, n + 1) && exists|b: Seq<u8>|
                c_string_arg(self.vm, n as int, b) && s@ == utf8_lossy(b),
            r is None ==> !(args_in_memory(self.vm, n + 1) && exists|b: Seq<u8>|
                c_string_arg(self.vm, n as int, b)),
    {
        let a = match self.arg(n) {
            Some(a) => a,
            None => return None,
        };
        if a as usize > self.vm.memory.size() {
            return None;
        }
        match self.vm.memory.cstr(a) {
            Some(bytes) => {
                let s = lossy(bytes.as_slice());
                proof {
                    assert(c_string_arg(self.vm, n as int, bytes@));
                }
                Some(s)
            },
            None => {
                proof {
                    if exists|b: Seq<u8>| c_string_arg(self.vm, n as int, b) {
                        let b = choose|b: Seq<u8>| c_string_arg(self.vm, n as int, b);
                        assert(self.vm.memory@[a + b.len()] == 0);
                    }
                }
                None
            },
        }
    }

    /// Carries out syscall `id` of the game module where it needs neither the map library, nor
    /// floating point, nor output; hands the others back to the host untouched.
    pub fn handle_syscall(&mut self, id: u32) -> (r: Serviced)
        requires
            old(self).wf(),
        ensures
            final(self).wf(),
            !serviced_here(id) ==> r == Serviced::Host && *final(self) == *old(self),
            serviced_here(id) ==> (r == Serviced::Done <==> syscall_ok(*old(self), id)),
            serviced_here(id) ==> r != Serviced::Host,
            r == Serviced::Done ==> syscall_done(*old(self), *final(self), id),
            final(self).vm.code == old(self).vm.code,
    {
        if !(id == q3::G_MILLISECONDS || id == q3::G_CVAR_UPDATE || id == q3::G_FS_FOPEN_FILE || id
            == q3::G_FS_READ || id == q3::G_FS_WRITE || id == q3::G_FS_FCLOSE_FILE || id
            == q3::G_SEND_SERVER_COMMAND || id == q3::G_SET_CONFIGSTRING || id == q3::G_CVAR_SET
            || id == q3::G_CVAR_VARIABLE_INTEGER_VALUE || id == q3::G_CVAR_VARIABLE_STRING_BUFFER
            || id == q3::G_GET_CONFIGSTRING || id == q3::G_GET_USERINFO || id
            == q3::G_LOCATE_GAME_DATA || id == q3::G_UNLINKENTITY || id == q3::G_GET_USERCMD || id
            == q3::G_REAL_TIME || id == q3::TRAP_MEMSET || id == q3::TRAP_MEMCPY || id
            == q3::TRAP_STRNCPY) {
            return Serviced::Host;
        }
        if id == q3::G_CVAR_SET || id == q3::G_CVAR_VARIABLE_INTEGER_VALUE {
            self.cvar_syscall(id)
        } else if id == q3::G_LOCATE_GAME_DATA || id == q3::G_UNLINKENTITY {
            self.entity_syscall(id)
        } else {
            self.memory_syscall(id)
        }
    }

    fn cvar_syscall(&mut self, id: u32) -> (r: Serviced)
        requires
            old(self).wf(),
            id == q3::G_CVAR_SET || id == q3::G_CVAR_VARIABLE_INTEGER_VALUE,
        ensures
            final(self).wf(),
            r != Serviced::Host,
            r == Serviced::Done <==> syscall_ok(*old(self), id),
            r == Serviced::Done ==> syscall_done(*old(self), *final(self), id),
            final(self).vm.code == old(self).vm.code,
    {
        let name = match self.string_arg(0) {
            Some(s) => s,
            None => return Serviced::Fault,
        };
        if id == q3::G_CVAR_SET {
            let value = match self.string_arg(1) {
                Some(s) => s,
                None => return Serviced::Fault,
            };
            self.cvars.set(name.as_str(), value);
            self.vm.set_result(0);
        } else {
            let v = self.cvars.get_i32(name.as_str());
            self.vm.set_result(v as u32);
        }
        Serviced::Done
    }

    fn entity_syscall(&mut self, id: u32) -> (r: Serviced)
        requires
            old(self).wf(),
            id == q3::G_LOCATE_GAME_DATA || id == q3::G_UNLINKENTITY,
        ensures
            final(self).wf(),
            r != Serviced::Host,
            r == Serviced::Done <==> syscall_ok(*old(self), id),
            r == Serviced::Done ==> syscall_done(*old(self), *final(self), id),
            final(self).vm.code == old(self).vm.code,
    {
        if id == q3::G_LOCATE_GAME_DATA {
            let (a0, a1, a2, a3, a4) = match (self.arg(0), self.arg(1), self.arg(2), self.arg(3), self.arg(4)) {
                (Some(a0), Some(a1), Some(a2), Some(a3), Some(a4)) => (a0, a1, a2, a3, a4),
                _ => return Serviced::Fault,
            };
            self.g_entities = Some(GameData::new(a0, a1, a2));
            self.clients = Some(GameData::new(a3, q3::MAX_CLIENTS, a4));
            self.vm.set_result(0);
            Serviced::Done
        } else {
            let ent = match self.arg(0) {
                Some(a) => a,
                None => return Serviced::Fault,
            };
            let ghost before = self.linked_entities@;
            let mut kept: Vec<u32> = Vec::new();
            let mut i: usize = 0;
            while i < self.linked_entities.len()
                invariant
                    self.linked_entities@ == before,
                    i <= before.len(),
                    kept@.to_set() == before.subrange(0, i as int).to_set().remove(ent),
                decreases before.len() - i,
            {
                let e = self.linked_entities[i];
                proof {
                    assert(before.subrange(0, i + 1) =~= before.subrange(0, i as int).push(e));
                    before.subrange(0, i as int).lemma_push_to_set_commute(e);
                }
                if e != ent {
                    let ghost k0 = kept@;
                    kept.push(e);
                    proof {
                        k0.lemma_push_to_set_commute(e);
                        assert(kept@.to_set() =~= before.subrange(0, i + 1).to_set().remove(ent));
                    }
                } else {
                    proof {
                        assert(kept@.to_set() =~= before.subrange(0, i + 1).to_set().remove(ent));
                    }
                }
                i = i + 1;
            }
            proof {
                assert(before.subrange(0, i as int) =~= before);
            }
            self.linked_entities = kept;
            self.vm.set_result(0);
            Serviced::Done
        }
    }

    #[verifier::rlimit(50)]
    fn memory_syscall(&mut self, id: u32) -> (r: Serviced)
        requires
            old(self).wf(),
            serviced_here(id),
            !(id == q3::G_CVAR_SET || id == q3::G_CVAR_VARIABLE_INTEGER_VALUE || id
                == q3::G_LOCATE_GAME_DATA || id == q3::G_UNLINKENTITY),
        ensures
            final(self).wf(),
            r != Serviced::Host,
            r == Serviced::Done <==> syscall_ok(*old(self), id),
            r == Serviced::Done ==> syscall_done(*old(self), *final(self), id),
            final(self).vm.code == old(self).vm.code,
    {
        let size = self.vm.memory.size() as u64;
        if id == q3::G_CVAR_VARIABLE_STRING_BUFFER || id == q3::G_GET_CONFIGSTRING || id
            == q3::G_GET_USERINFO {
            let (_a0, a1) = match (self.arg(0), self.arg(1)) {
                (Some(a0), Some(a1)) => (a0, a1),
                _ => return Serviced::Fault,
            };
            if a1 as u64 >= size {
                return Serviced::Fault;
            }
            self.vm.memory.write_u8(a1, 0);
        } else if id == q3::G_GET_USERCMD {
            let (_a0, a1) = match (self.arg(0), self.arg(1)) {
                (Some(a0), Some(a1)) => (a0, a1),
                _ => return Serviced::Fault,
            };
            if a1 as u64 + USERCMD_SIZE as u64 > size {
                return Serviced::Fault;
            }
            self.write_usercmd(a1);
        } else if id == q3::G_REAL_TIME {
            let a0 = match self.arg(0) {
                Some(a0) => a0,
                None => return Serviced::Fault,
            };
            if a0 as u64 + QTIME_SIZE as u64 > size {
                return Serviced::Fault;
            }
            self.vm.memory.memset(a0, 0, QTIME_SIZE);
        } else if id == q3::TRAP_MEMSET || id == q3::TRAP_MEMCPY || id == q3::TRAP_STRNCPY {
            let (a0, a1, a2) = match (self.arg(0), self.arg(1), self.arg(2)) {
                (Some(a0), Some(a1), Some(a2)) => (a0, a1, a2),
                _ => return Serviced::Fault,
            };
            if a0 as u64 + a2 as u64 > size {
                return Serviced::Fault;
            }
            if id == q3::TRAP_MEMSET {
                self.vm.memory.memset(a0, (a1 % 256) as u8, a2);
            } else if id == q3::TRAP_MEMCPY {
                if a1 as u64 + a2 as u64 > size {
                    return Serviced::Fault;
                }
                self.vm.memory.memcpy(a0, a1, a2);
            } else {
                if !self.vm.memory.strncpy_source_fits(a0, a1, a2) {
                    return Serviced::Fault;
                }
                self.vm.memory.strncpy(a0, a1, a2);
                self.vm.set_result(a0);
                return Serviced::Done;
            }
        }
        self.vm.set_result(0);
        Serviced::Done
    }

    /// Starts a call of the game module's entry point with `args`.
    pub fn begin_call(&mut self, args: &[u32; 10]) -> (ok: bool)
        requires
            old(self).wf(),
        ensures
            final(self).wf(),
            ok == (old(self).vm.program_stack <= old(self).vm.memory@.len() && 48 <= old(self).vm.program_stack),
            ok ==> ({
                let sp = old(self).vm.program_stack as int;
                let nsp = sp - 48;
                &&& final(self).vm.pc == 0
                &&& final(self).vm.program_stack == nsp
                &&& final(self).vm.memory@ == put_le_u32(
                    put_le_u32(push_args(old(self).vm.memory@, sp, args@), nsp + 4, sp as u32),
                    nsp,
                    RETURN_SENTINEL,
                )
                &&& final(self).vm.memory.dirty_chunks() == old(self).vm.memory.dirty_chunks().union(
                    chunks_touched(nsp, 48),
                )
                &&& final(self).vm.code == old(self).vm.code
                &&& final(self).vm.op_stack == old(self).vm.op_stack
                &&& *final(self) == with_vm(*old(self), final(self).vm)
            }),
            !ok ==> *final(self) == *old(self),
    {
        if self.vm.program_stack as usize > self.vm.memory.size() || self.vm.program_stack < 48 {
            return false;
        }
        self.vm.prepare_call(args);
        true
    }

    /// Runs the call in progress for at most `budget` instructions, carrying out on the way
    /// every syscall that `handle_syscall` serves (each counts as one instruction).
    pub fn resume(&mut self, budget: u64) -> (r: CallState)
        requires
            old(self).wf(),
        ensures
            final(self).wf(),
            final(self).vm.code == old(self).vm.code,
            r == CallState::Running ==> game_runs(*old(self), *final(self), budget as nat),
            r != CallState::Running ==> exists|k: nat, mid: Game|
                k < budget && #[trigger] game_runs(*old(self), mid, k) && stop_relation(
                    mid,
                    *final(self),
                    r,
                ),
    {
        let ghost start = *self;
        let ghost mut trace = seq![*self];
        let mut done: u64 = 0;
        while done < budget
            invariant
                self.wf(),
                self.vm.code == old(self).vm.code,
                start == *old(self),
                done <= budget,
                trace.len() == done + 1,
                trace[0] == start,
                trace.last() == *self,
                game_trace(trace),
            decreases budget - done,
        {
            let ghost before = *self;
            match self.advance() {
                Advance::Continue => {
                    done = done + 1;
                    proof {
                        let t0 = trace;
                        trace = trace.push(*self);
                        assert forall|i: int| 0 <= i < trace.len() - 1 implies #[trigger] game_step(
                            trace[i],
                            trace[i + 1],
                        ) by {
                            if i < t0.len() - 1 {
                                assert(trace[i] == t0[i] && trace[i + 1] == t0[i + 1]);
                            }
                        }
                    }
                },
                Advance::Stop(cs) => {
                    proof {
                        assert(game_runs(start, before, done as nat));
                    }
                    return cs;
                },
            }
        }
        proof {
            assert(game_runs(start, *self, budget as nat));
        }
        CallState::Running
    }

    /// One instruction of the call in progress, with the syscall it makes where
    /// `handle_syscall` serves it.
    #[verifier::rlimit(50)]
    fn advance(&mut self) -> (r: Advance)
        requires
            old(self).wf(),
        ensures
            final(self).wf(),
            final(self).vm.code == old(self).vm.code,
            r == Advance::Continue ==> game_step(*old(self), *final(self)),
            r matches Advance::Stop(cs) ==> cs != CallState::Running && stop_relation(
                *old(self),
                *final(self),
                cs,
            ),
    {
        let ghost g0 = *self;
        let e = self.vm.step();
        let ghost mid = *self;
        proof {
            assert(mid == with_vm(g0, mid.vm));
        }
        match e {
            None => Advance::Continue,
            Some(ExitReason::Return) => {
                let n = self.vm.op_stack.len();
                if n == 0 {
                    return Advance::Stop(CallState::Fault);
                }
                let v = self.vm.op_stack[n - 1];
                self.vm.op_stack.pop();
                Advance::Stop(CallState::Returned(v))
            },
            Some(ExitReason::Syscall(id)) => {
                match self.handle_syscall(id) {
                    Serviced::Done => Advance::Continue,
                    Serviced::Host => Advance::Stop(CallState::Host(ExitReason::Syscall(id))),
                    Serviced::Fault => Advance::Stop(CallState::Fault),
                }
            },
            Some(ExitReason::Fault) => Advance::Stop(CallState::Fault),
            Some(f) => Advance::Stop(CallState::Host(f)),
        }
    }

    /// Readies the command for the next frame: stamps it with the current time and turns its
    /// absolute view angles into the deltas the game expects, relative to the client's
    /// `delta_angles`. `false` (with nothing changed) where the client array is unknown or out
    /// of memory.
    pub fn begin_frame(&mut self, usercmd: UserCmd) -> (ok: bool)
        requires
            old(self).wf(),
        ensures
            final(self).wf(),
            final(self).vm == old(self).vm,
            ok == (old(self).clients matches Some(c) && c.address + DELTA_ANGLES_OFFSET + 12
                <= old(self).vm.memory@.len()),
            ok ==> ({
                let a = old(self).clients->Some_0.address + DELTA_ANGLES_OFFSET;
                let m = old(self).vm.memory@;
                &&& final(self).usercmd.server_time == old(self).time
                &&& final(self).usercmd.buttons == usercmd.buttons
                &&& final(self).usercmd.weapon == usercmd.weapon
                &&& final(self).usercmd.forward_move == usercmd.forward_move
                &&& final(self).usercmd.right_move == usercmd.right_move
                &&& final(self).usercmd.up_move == usercmd.up_move
                &&& forall|i: int| 0 <= i < 3 ==> #[trigger] final(self).usercmd.angles[i] == wrap_sub_i32(
                    usercmd.angles[i],
                    le_u32(m, a + 4 * i),
                )
            }),
            !ok ==> final(self).usercmd == old(self).usercmd,
            final(self).time == old(self).time,
    {
        let base = match self.clients {
            Some(c) => c.address,
            None => return false,
        };
        if base as u64 + DELTA_ANGLES_OFFSET as u64 + 12 > self.vm.memory.size() as u64 {
            return false;
        }
        let a = base + DELTA_ANGLES_OFFSET;
        let mut cmd = usercmd;
        cmd.server_time = self.time;
        let d0 = self.vm.memory.read(a);
        let d1 = self.vm.memory.read(a + 4);
        let d2 = self.vm.memory.read(a + 8);
        cmd.angles = [
            sub_i32(usercmd.angles[0], d0),
            sub_i32(usercmd.angles[1], d1),
            sub_i32(usercmd.angles[2], d2),
        ];
        self.usercmd = cmd;
        true
    }

    /// Ends a frame: simulation time moves on by one frame.
    pub fn end_frame(&mut self)
        requires
            old(self).time <= i32::MAX - FRAME_MSEC,
        ensures
            final(self).time == old(self).time + FRAME_MSEC,
            final(self).vm == old(self).vm,
            final(self).usercmd == old(self).usercmd,
            final(self).init_time == old(self).init_time,
    {
        self.time = self.time + FRAME_MSEC;
    }

    /// Adds `ent` to the linked entities, once.
    pub fn link(&mut self, ent: u32)
        ensures
            final(self).linked_entities@.to_set() == old(self).linked_entities@.to_set().insert(ent),
            old(self).linked_entities@.no_duplicates() ==> final(self).linked_entities@.no_duplicates(),
            final(self).vm == old(self).vm,
            final(self).cvars == old(self).cvars,
            final(self).g_entities == old(self).g_entities,
            final(self).clients == old(self).clients,
            final(self).time == old(self).time,
    {
        let mut i: usize = 0;
        while i < self.linked_entities.len()
            invariant
                self.linked_entities == old(self).linked_entities,
                i <= self.linked_entities@.len(),
                forall|j: int| 0 <= j < i ==> self.linked_entities@[j] != ent,
            decreases self.linked_entities@.len() - i,
        {
            if self.linked_entities[i] == ent {
                proof {
                    assert(self.linked_entities@.to_set().contains(ent));
                    assert(self.linked_entities@.to_set().insert(ent) =~= self.linked_entities@.to_set());
                }
                return;
            }
            i = i + 1;
        }
        let ghost before = self.linked_entities@;
        self.linked_entities.push(ent);
        proof {
            before.lemma_push_to_set_commute(ent);
            assert forall|a: int, b: int| 0 <= a < b < self.linked_entities@.len() && before.no_duplicates() implies self.linked_entities@[a] != self.linked_entities@[b] by {
                if b == before.len() {
                    assert(self.linked_entities@[a] == before[a]);
                }
            }
        }
    }

    /// A snapshot of the game; memory as `Memory::take_snapshot` saves it against the baseline's.
    pub fn take_snapshot(&self, baseline: Option<&GameSnapshot>) -> (r: GameSnapshot)
        requires
            self.wf(),
            baseline matches Some(b) ==> (*b.vm matches MemorySnapshot::Baseline(m) ==> m@.len()
                == self.vm.memory@.len()),
        ensures
            fits(*r.vm, self.vm.memory@.len() as int),
            snapshot_taken(
                self.vm.memory@,
                self.vm.memory.dirty_chunks(),
                match baseline {
                    Some(b) => Some(&b.vm),
                    None => None,
                },
                *r.vm,
            ),
            r.g_entities == self.g_entities,
            r.clients == self.clients,
            r.time == self.time,
            r.linked_entities@ == self.linked_entities@,
    {
        let base = match baseline {
            Some(b) => Some(&b.vm),
            None => None,
        };
        let vm = self.vm.take_snapshot(base);
        let linked_entities = self.linked_entities.clone();
        proof {
            assert(linked_entities@ =~= self.linked_entities@);
        }
        GameSnapshot {
            vm,
            g_entities: self.g_entities,
            clients: self.clients,
            time: self.time,
            linked_entities,
        }
    }

    /// Brings the game back to `snapshot`.
    pub fn restore_from_snapshot(&mut self, snapshot: &GameSnapshot)
        requires
            old(self).wf(),
            fits(*snapshot.vm, old(self).vm.memory@.len() as int),
        ensures
            final(self).wf(),
            final(self).vm.memory@ == restored(
                old(self).vm.memory@,
                old(self).vm.memory.dirty_chunks(),
                *snapshot.vm,
            ),
            final(self).g_entities == snapshot.g_entities,
            final(self).clients == snapshot.clients,
            final(self).time == snapshot.time,
            final(self).linked_entities@ == snapshot.linked_entities@,
            final(self).cvars == old(self).cvars,
            final(self).init_time == old(self).init_time,
    {
        self.vm.restore_from_snapshot(&snapshot.vm);
        self.g_entities = snapshot.g_entities;
        self.clients = snapshot.clients;
        self.time = snapshot.time;
        let linked = snapshot.linked_entities.clone();
        proof {
            assert(linked@ =~= snapshot.linked_entities@);
        }
        self.linked_entities = linked;
    }

    /// Carries out the game's cvar registration syscall, all but the `vmCvar_t`'s float value,
    /// which the host writes from the text.
    pub fn register_cvar(&mut self) -> (r: Serviced)
        requires
            old(self).wf(),
        ensures
            final(self).wf(),
            final(self).vm.code == old(self).vm.code,
            r != Serviced::Host,
            r == Serviced::Done <==> register_ok(*old(self)),
            r == Serviced::Done ==> exists|nb: Seq<u8>, db: Seq<u8>|
                c_string_arg(old(self).vm, 1, nb) && c_string_arg(old(self).vm, 2, db)
                    && register_done(*old(self), *final(self), utf8_lossy(nb), utf8_lossy(db)),
    {
        let a0 = match self.arg(0) {
            Some(a) => a,
            None => return Serviced::Fault,
        };
        let name = match self.string_arg(1) {
            Some(s) => s,
            None => return Serviced::Fault,
        };
        let default = match self.string_arg(2) {
            Some(s) => s,
            None => return Serviced::Fault,
        };
        if a0 != 0 && a0 as u64 + VM_CVAR_SIZE as u64 > self.vm.memory.size() as u64 {
            return Serviced::Fault;
        }
        let ghost g0 = *self;
        let ghost nb = choose|b: Seq<u8>| c_string_arg(self.vm, 1, b) && name@ == utf8_lossy(b);
        let ghost db = choose|b: Seq<u8>| c_string_arg(self.vm, 2, b) && default@ == utf8_lossy(b);
        let ghost dv = default@;
        let handle = self.cvars.register(name.clone(), default);
        if a0 != 0 {
            let integer = self.cvars.get_i32(name.as_str());
            self.vm.memory.write(a0, (handle as u64 % 0x1_0000_0000) as u32);
            self.vm.memory.write(a0 + VM_CVAR_INTEGER, integer as u32);
            let s = self.cvars.get_str(name.as_str());
            let b = s.as_bytes();
            let k = if b.len() < VM_CVAR_STRING_SIZE { b.len() } else { VM_CVAR_STRING_SIZE };
            self.vm.memory.write_bytes(
                (a0 + VM_CVAR_STRING) as usize,
                vstd::slice::slice_subrange(b, 0, k),
            );
        }
        self.vm.set_result(0);
        proof {
            assert(register_done(g0, *self, name@, dv));
        }
        Serviced::Done
    }

    /// The entry-point call that initialisation makes in `phase`, if any.
    pub fn init_call(&self, phase: InitPhase) -> (r: Option<[u32; 10]>)
        ensures
            match init_call_spec(phase, self.time) {
                Some(args) => r matches Some(a) && a@ == args,
                None => r.is_none(),
            },
    {
        match phase {
            InitPhase::Start => Some(Game::entry_args(q3::GAME_INIT, 0, 0, 0)),
            InitPhase::Settle(_) => Some(Game::entry_args(q3::GAME_RUN_FRAME, self.time as u32, 0, 0)),
            InitPhase::Connect => Some(Game::entry_args(q3::GAME_CLIENT_CONNECT, 0, 1, 0)),
            InitPhase::Begin => Some(Game::entry_args(q3::GAME_CLIENT_BEGIN, 0, 0, 0)),
            InitPhase::Ready => None,
        }
    }

    /// The phase after `phase`'s call returned `returned`: a settle frame moves time on by
    /// `SETTLE_MSEC` (the last one also fixes `init_time`), and a refused connection ends
    /// initialisation with the game's message.
    pub fn init_next(&mut self, phase: InitPhase, returned: u32) -> (r: Result<InitPhase, Option<String>>)
        requires
            phase matches InitPhase::Settle(n) ==> n < SETTLE_FRAMES && old(self).time <= i32::MAX
                - SETTLE_MSEC,
            phase != InitPhase::Ready,
            old(self).vm.wf(),
        ensures
            final(self).vm == old(self).vm,
            final(self).cvars == old(self).cvars,
            match phase {
                InitPhase::Start => r == Ok::<InitPhase, Option<String>>(InitPhase::Settle(0))
                    && final(self).time == old(self).time && final(self).init_time == old(self).init_time,
                InitPhase::Settle(n) => {
                    &&& final(self).time == old(self).time + SETTLE_MSEC
                    &&& if n + 1 < SETTLE_FRAMES {
                        r == Ok::<InitPhase, Option<String>>(InitPhase::Settle((n + 1) as u8))
                            && final(self).init_time == old(self).init_time
                    } else {
                        r == Ok::<InitPhase, Option<String>>(InitPhase::Connect)
                            && final(self).init_time == final(self).time
                    }
                },
                InitPhase::Connect => {
                    &&& final(self).time == old(self).time && final(self).init_time == old(self).init_time
                    &&& returned == 0 ==> r == Ok::<InitPhase, Option<String>>(InitPhase::Begin)
                    &&& returned != 0 ==> match r {
                        Err(Some(s)) => exists|b: Seq<u8>|
                            c_string_at(old(self).vm.memory@, returned as int, returned + b.len()) && b
                                == old(self).vm.memory@.subrange(returned as int, returned + b.len())
                                && s@ == connect_failed(utf8_lossy(b)),
                        Err(None) => forall|i: int|
                            returned <= i < old(self).vm.memory@.len() ==> old(self).vm.memory@[i] != 0,
                        Ok(_) => false,
                    }
                },
                _ => r == Ok::<InitPhase, Option<String>>(InitPhase::Ready) && final(self).time
                    == old(self).time && final(self).init_time == old(self).init_time,
            },
    {
        match phase {
            InitPhase::Start => Ok(InitPhase::Settle(0)),
            InitPhase::Settle(n) => {
                self.time = self.time + SETTLE_MSEC;
                if n + 1 < SETTLE_FRAMES {
                    Ok(InitPhase::Settle(n + 1))
                } else {
                    self.init_time = self.time;
                    Ok(InitPhase::Connect)
                }
            },
            InitPhase::Connect => {
                if returned == 0 {
                    Ok(InitPhase::Begin)
                } else {
                    Err(self.connect_message(returned))
                }
            },
            _ => Ok(InitPhase::Ready),
        }
    }

    /// What a call of the client-connect entry point that returned `returned` means: accepted
    /// on zero, else refused with `connect failed: ` and the game's message (`None` where no C
    /// string stands there).
    pub fn connect_result(&self, returned: u32) -> (r: Result<(), Option<String>>)
        requires
            self.vm.wf(),
        ensures
            returned == 0 <==> r is Ok,
            r matches Err(Some(s)) ==> exists|b: Seq<u8>|
                c_string_at(self.vm.memory@, returned as int, returned + b.len()) && b
                    == self.vm.memory@.subrange(returned as int, returned + b.len()) && s@
                    == connect_failed(utf8_lossy(b)),
            r matches Err(None) ==> returned != 0 && forall|i: int|
                returned <= i < self.vm.memory@.len() ==> self.vm.memory@[i] != 0,
    {
        if returned == 0 {
            Ok(())
        } else {
            Err(self.connect_message(returned))
        }
    }

    /// The host's refusal message for the C string at `address`, if one stands there.
    fn connect_message(&self, address: u32) -> (r: Option<String>)
        requires
            self.vm.wf(),
        ensures
            match r {
                Some(s) => exists|b: Seq<u8>|
                    c_string_at(self.vm.memory@, address as int, address + b.len()) && b
                        == self.vm.memory@.subrange(address as int, address + b.len()) && s@
                        == connect_failed(utf8_lossy(b)),
                None => forall|i: int| address <= i < self.vm.memory@.len() ==> self.vm.memory@[i] != 0,
            },
    {
        if address as usize > self.vm.memory.size() {
            return None;
        }
        match self.vm.memory.cstr(address) {
            Some(bytes) => {
                let text = lossy(bytes.as_slice());
                proof {
                    reveal_strlit("connect failed: ");
                }
                Some(String::from_str("connect failed: ").concat(text.as_str()))
            },
            None => None,
        }
    }

    /// Writes `self.usercmd` at `a`.
    fn write_usercmd(&mut self, a: u32)
        requires
            old(self).vm.wf(),
            a + USERCMD_SIZE <= old(self).vm.memory@.len(),
        ensures
            final(self).vm.wf(),
            final(self).vm.memory@ == spliced(old(self).vm.memory@, a as int, usercmd_bytes(old(self).usercmd)),
            final(self).vm.memory.dirty_chunks() == old(self).vm.memory.dirty_chunks().union(chunks_touched(a as int, USERCMD_SIZE as int)),
            final(self).vm.code == old(self).vm.code,
            final(self).vm.op_stack == old(self).vm.op_stack,
            final(self).vm.pc == old(self).vm.pc,
            final(self).vm.program_stack == old(self).vm.program_stack,
            final(self).cvars == old(self).cvars,
            final(self).usercmd == old(self).usercmd,
            final(self).linked_entities == old(self).linked_entities,
            final(self).g_entities == old(self).g_entities,
            final(self).clients == old(self).clients,
            final(self).time == old(self).time,
            final(self).init_time == old(self).init_time,
    {
        let bytes = self.usercmd.to_bytes();
        self.vm.memory.write_bytes(a as usize, bytes.as_slice());
    }
}

} // verus!
