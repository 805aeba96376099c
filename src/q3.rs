use vstd::prelude::*;

verus! {

pub const OP_UNDEF: u8 = 0;
pub const OP_IGNORE: u8 = 1;
pub const OP_BREAK: u8 = 2;
pub const OP_ENTER: u8 = 3;
pub const OP_LEAVE: u8 = 4;
pub const OP_CALL: u8 = 5;
pub const OP_PUSH: u8 = 6;
pub const OP_POP: u8 = 7;
pub const OP_CONST: u8 = 8;
pub const OP_LOCAL: u8 = 9;
pub const OP_JUMP: u8 = 10;
pub const OP_EQ: u8 = 11;
pub const OP_NE: u8 = 12;
pub const OP_LTI: u8 = 13;
pub const OP_LEI: u8 = 14;
pub const OP_GTI: u8 = 15;
pub const OP_GEI: u8 = 16;
pub const OP_LTU: u8 = 17;
pub const OP_LEU: u8 = 18;
pub const OP_GTU: u8 = 19;
pub const OP_GEU: u8 = 20;
pub const OP_EQF: u8 = 21;
pub const OP_NEF: u8 = 22;
pub const OP_LTF: u8 = 23;
pub const OP_LEF: u8 = 24;
pub const OP_GTF: u8 = 25;
pub const OP_GEF: u8 = 26;
pub const OP_LOAD1: u8 = 27;
pub const OP_LOAD2: u8 = 28;
pub const OP_LOAD4: u8 = 29;
pub const OP_STORE1: u8 = 30;
pub const OP_STORE2: u8 = 31;
pub const OP_STORE4: u8 = 32;
pub const OP_ARG: u8 = 33;
pub const OP_BLOCK_COPY: u8 = 34;
pub const OP_SEX8: u8 = 35;
pub const OP_SEX16: u8 = 36;
pub const OP_NEGI: u8 = 37;
pub const OP_ADD: u8 = 38;
pub const OP_SUB: u8 = 39;
pub const OP_DIVI: u8 = 40;
pub const OP_DIVU: u8 = 41;
pub const OP_MODI: u8 = 42;
pub const OP_MODU: u8 = 43;
pub const OP_MULI: u8 = 44;
pub const OP_MULU: u8 = 45;
pub const OP_BAND: u8 = 46;
pub const OP_BOR: u8 = 47;
pub const OP_BXOR: u8 = 48;
pub const OP_BCOM: u8 = 49;
pub const OP_LSH: u8 = 50;
pub const OP_RSHI: u8 = 51;
pub const OP_RSHU: u8 = 52;
pub const OP_NEGF: u8 = 53;
pub const OP_ADDF: u8 = 54;
pub const OP_SUBF: u8 = 55;
pub const OP_DIVF: u8 = 56;
pub const OP_MULF: u8 = 57;
pub const OP_CVIF: u8 = 58;
pub const OP_CVFI: u8 = 59;

// Entry points that the game module exports.
pub const GAME_INIT: u32 = 0;
pub const GAME_SHUTDOWN: u32 = 1;
pub const GAME_CLIENT_CONNECT: u32 = 2;
pub const GAME_CLIENT_BEGIN: u32 = 3;
pub const GAME_CLIENT_USERINFO_CHANGED: u32 = 4;
pub const GAME_CLIENT_DISCONNECT: u32 = 5;
pub const GAME_CLIENT_COMMAND: u32 = 6;
pub const GAME_CLIENT_THINK: u32 = 7;
pub const GAME_RUN_FRAME: u32 = 8;
pub const GAME_CONSOLE_COMMAND: u32 = 9;

// Services that the game module imports from the host.
pub const G_PRINT: u32 = 0;
pub const G_ERROR: u32 = 1;
pub const G_MILLISECONDS: u32 = 2;
pub const G_CVAR_REGISTER: u32 = 3;
pub const G_CVAR_UPDATE: u32 = 4;
pub const G_CVAR_SET: u32 = 5;
pub const G_CVAR_VARIABLE_INTEGER_VALUE: u32 = 6;
pub const G_CVAR_VARIABLE_STRING_BUFFER: u32 = 7;
pub const G_ARGC: u32 = 8;
pub const G_ARGV: u32 = 9;
pub const G_FS_FOPEN_FILE: u32 = 10;
pub const G_FS_READ: u32 = 11;
pub const G_FS_WRITE: u32 = 12;
pub const G_FS_FCLOSE_FILE: u32 = 13;
pub const G_SEND_CONSOLE_COMMAND: u32 = 14;
pub const G_LOCATE_GAME_DATA: u32 = 15;
pub const G_DROP_CLIENT: u32 = 16;
pub const G_SEND_SERVER_COMMAND: u32 = 17;
pub const G_SET_CONFIGSTRING: u32 = 18;
pub const G_GET_CONFIGSTRING: u32 = 19;
pub const G_GET_USERINFO: u32 = 20;
pub const G_SET_USERINFO: u32 = 21;
pub const G_GET_SERVERINFO: u32 = 22;
pub const G_SET_BRUSH_MODEL: u32 = 23;
pub const G_TRACE: u32 = 24;
pub const G_POINT_CONTENTS: u32 = 25;
pub const G_IN_PVS: u32 = 26;
pub const G_IN_PVS_IGNORE_PORTALS: u32 = 27;
pub const G_ADJUST_AREA_PORTAL_STATE: u32 = 28;
pub const G_AREAS_CONNECTED: u32 = 29;
pub const G_LINKENTITY: u32 = 30;
pub const G_UNLINKENTITY: u32 = 31;
pub const G_ENTITIES_IN_BOX: u32 = 32;
pub const G_ENTITY_CONTACT: u32 = 33;
pub const G_BOT_ALLOCATE_CLIENT: u32 = 34;
pub const G_BOT_FREE_CLIENT: u32 = 35;
pub const G_GET_USERCMD: u32 = 36;
pub const G_GET_ENTITY_TOKEN: u32 = 37;
pub const G_FS_GETFILELIST: u32 = 38;
pub const G_DEBUG_POLYGON_CREATE: u32 = 39;
pub const G_DEBUG_POLYGON_DELETE: u32 = 40;
pub const G_REAL_TIME: u32 = 41;
pub const G_SNAPVECTOR: u32 = 42;
pub const G_TRACECAPSULE: u32 = 43;
pub const G_ENTITY_CONTACTCAPSULE: u32 = 44;
pub const G_FS_SEEK: u32 = 45;

// Math and memory services shared by every module.
pub const TRAP_MEMSET: u32 = 100;
pub const TRAP_MEMCPY: u32 = 101;
pub const TRAP_STRNCPY: u32 = 102;
pub const TRAP_SIN: u32 = 103;
pub const TRAP_COS: u32 = 104;
pub const TRAP_ATAN2: u32 = 105;
pub const TRAP_SQRT: u32 = 106;
pub const TRAP_MATRIX_MULTIPLY: u32 = 107;
pub const TRAP_ANGLE_VECTORS: u32 = 108;
pub const TRAP_PERPENDICULAR_VECTOR: u32 = 109;
pub const TRAP_FLOOR: u32 = 110;
pub const TRAP_CEIL: u32 = 111;

pub const MAX_CLIENTS: u32 = 64;
pub const ENTITYNUM_NONE: u32 = 1023;
pub const ENTITYNUM_WORLD: u32 = 1022;

/// One client's input for one frame, as the game module reads it.
#[derive(Clone, Copy, Debug, PartialEq, Eq)]
pub struct UserCmd {
    pub server_time: i32,
    pub angles: [i32; 3],
    pub buttons: i32,
    pub weapon: u8,
    pub forward_move: i8,
    pub right_move: i8,
    pub up_move: i8,
}

/// Bytes in a `UserCmd` as the game module lays it out.
pub const USERCMD_SIZE: usize = 24;

/// The little-endian bytes of `v`.
pub open spec fn le_bytes(v: u32) -> Seq<u8> {
    seq![(v % 256) as u8, ((v / 256) % 256) as u8, ((v / 65536) % 256) as u8, (v / 16777216) as u8]
}

/// The two's-complement bits of `v`.
pub open spec fn bits_i32(v: i32) -> u32 {
    if v < 0 {
        (v + 0x1_0000_0000) as u32
    } else {
        v as u32
    }
}

/// The two's-complement bits of `v`.
pub open spec fn bits_i8(v: i8) -> u8 {
    if v < 0 {
        (v + 256) as u8
    } else {
        v as u8
    }
}

/// The 24 bytes of `c` as the game lays out a `usercmd_t`.
pub open spec fn usercmd_bytes(c: UserCmd) -> Seq<u8> {
    le_bytes(bits_i32(c.server_time)) + le_bytes(bits_i32(c.angles[0])) + le_bytes(
        bits_i32(c.angles[1]),
    ) + le_bytes(bits_i32(c.angles[2])) + le_bytes(bits_i32(c.buttons)) + seq![
        c.weapon,
        bits_i8(c.forward_move),
        bits_i8(c.right_move),
        bits_i8(c.up_move),
    ]
}

fn push_le(out: &mut Vec<u8>, v: i32)
    ensures
        final(out)@ == old(out)@ + le_bytes(bits_i32(v)),
{
    let b: u32 = if v < 0 {
        (v as i64 + 0x1_0000_0000) as u32
    } else {
        v as u32
    };
    out.push((b % 256) as u8);
    out.push(((b / 256) % 256) as u8);
    out.push(((b / 65536) % 256) as u8);
    out.push((b / 16777216) as u8);
    proof {
        assert(out@ =~= old(out)@ + le_bytes(bits_i32(v)));
    }
}

fn i8_bits(v: i8) -> (r: u8)
    ensures
        r == bits_i8(v),
{
    if v < 0 {
        (v as i16 + 256) as u8
    } else {
        v as u8
    }
}

impl UserCmd {
    /// The command as the game module lays it out in memory.
    pub fn to_bytes(&self) -> (r: Vec<u8>)
        ensures
            r@ == usercmd_bytes(*self),
    {
        let mut out: Vec<u8> = Vec::new();
        push_le(&mut out, self.server_time);
        push_le(&mut out, self.angles[0]);
        push_le(&mut out, self.angles[1]);
        push_le(&mut out, self.angles[2]);
        push_le(&mut out, self.buttons);
        out.push(self.weapon);
        out.push(i8_bits(self.forward_move));
        out.push(i8_bits(self.right_move));
        out.push(i8_bits(self.up_move));
        proof {
            assert(out@ =~= usercmd_bytes(*self));
        }
        out
    }

    /// A command with every field zero.
    pub fn zeroed() -> (r: Self)
        ensures
            r.server_time == 0,
            r.angles@ == seq![0i32, 0i32, 0i32],
            r.buttons == 0,
            r.weapon == 0,
            r.forward_move == 0,
            r.right_move == 0,
            r.up_move == 0,
    {
        let r = UserCmd {
            server_time: 0,
            angles: [0, 0, 0],
            buttons: 0,
            weapon: 0,
            forward_move: 0,
            right_move: 0,
            up_move: 0,
        };
        proof {
            assert(r.angles@ =~= seq![0i32, 0i32, 0i32]);
        }
        r
    }
}

} // verus!
