use tasjr::game::{Cvars, GameData};

#[test]
fn cvars_are_case_insensitive() {
    let mut c = Cvars::default();
    c.set("Dedicated", "1".to_string());
    assert_eq!(c.get_str("dedicated"), "1");
    assert_eq!(c.get_str("DEDICATED"), "1");
    assert_eq!(c.get_i32("dedicated"), 1);
    assert_eq!(c.get_str("missing"), "");
    assert_eq!(c.get_i32("missing"), 0);
}

#[test]
fn register_keeps_existing_values_and_counts_handles() {
    let mut c = Cvars::new();
    c.set("df_promode", "1".to_string());
    assert_eq!(c.register("DF_PROMODE".to_string(), "0".to_string()), 0);
    assert_eq!(c.get_str("df_promode"), "1");
    assert_eq!(c.register("g_speed".to_string(), "320".to_string()), 1);
    assert_eq!(c.get_i32("G_Speed"), 320);
    assert_eq!(c.register("g_speed".to_string(), "10".to_string()), 2);
    assert_eq!(c.get_i32("g_speed"), 320);
}

#[test]
fn get_i32_parses_signed_decimal() {
    let mut c = Cvars::new();
    c.set("a", "-42".to_string());
    c.set("b", "+7".to_string());
    c.set("c", "3.5".to_string());
    c.set("d", "2147483648".to_string());
    c.set("e", "-".to_string());
    assert_eq!(c.get_i32("a"), -42);
    assert_eq!(c.get_i32("b"), 7);
    assert_eq!(c.get_i32("c"), 0);
    assert_eq!(c.get_i32("d"), 0);
    assert_eq!(c.get_i32("e"), 0);
}

#[test]
fn game_data_addresses() {
    let d: GameData<u8> = GameData::new(1000, 64, 100);
    assert_eq!(d.address(3), 1300);
    assert_eq!(d.index_of(1300), 3);
    assert_eq!(d.index_of(1399), 3);
}

use tasjr::game::{CallState, Game, InitPhase, Serviced};
use tasjr::q3::{
    UserCmd, GAME_CLIENT_CONNECT, GAME_INIT, GAME_RUN_FRAME, G_CVAR_REGISTER, G_CVAR_SET, G_CVAR_VARIABLE_INTEGER_VALUE, G_GET_USERCMD, G_LOCATE_GAME_DATA,
    G_MILLISECONDS, G_TRACE, G_UNLINKENTITY, MAX_CLIENTS, OP_CALL, OP_CONST, OP_LEAVE,
    TRAP_MEMSET, TRAP_STRNCPY,
};
use tasjr::vm::{ExitReason, Vm};

fn image(code: &[u8], count: u32, bss: u32) -> Vec<u8> {
    let header = [0x1272_1444u32, count, 32, code.len() as u32, 32 + code.len() as u32, 0, 0, bss];
    let mut f = Vec::new();
    for w in header {
        f.extend_from_slice(&w.to_le_bytes());
    }
    f.extend_from_slice(code);
    f
}

fn game_with_args(args: &[u32]) -> Game {
    let mut vm = Vm::default();
    vm.load(&image(&[], 0, 512)).unwrap();
    vm.program_stack = 64;
    for (i, &a) in args.iter().enumerate() {
        vm.memory.write(64 + 8 + 4 * i as u32, a);
    }
    Game::new(vm)
}

#[test]
fn memset_and_strncpy_syscalls() {
    let mut g = game_with_args(&[200, 0x1AB, 5]);
    assert_eq!(g.handle_syscall(TRAP_MEMSET), Serviced::Done);
    assert_eq!(g.vm.memory.slice(200, 6), &[0xAB, 0xAB, 0xAB, 0xAB, 0xAB, 0]);
    assert_eq!(g.vm.op_stack, vec![0]);
    let mut g = game_with_args(&[300, 400, 4]);
    g.vm.memory.write_bytes(400, b"hi\0x");
    assert_eq!(g.handle_syscall(TRAP_STRNCPY), Serviced::Done);
    assert_eq!(g.vm.memory.slice(300, 4), &[b'h', b'i', 0, 0]);
    assert_eq!(g.vm.op_stack, vec![300]);
    let mut bad = game_with_args(&[510, 0, 5]);
    assert_eq!(bad.handle_syscall(TRAP_MEMSET), Serviced::Fault);
}

#[test]
fn cvar_syscalls() {
    let mut g = game_with_args(&[300, 400]);
    g.vm.memory.write_bytes(300, b"G_Gravity\0");
    g.vm.memory.write_bytes(400, b"800\0");
    assert_eq!(g.handle_syscall(G_CVAR_SET), Serviced::Done);
    assert_eq!(g.cvars.get_i32("g_gravity"), 800);
    g.vm.op_stack.clear();
    assert_eq!(g.handle_syscall(G_CVAR_VARIABLE_INTEGER_VALUE), Serviced::Done);
    assert_eq!(g.vm.op_stack, vec![800]);
}

#[test]
fn game_data_and_linking_syscalls() {
    let mut g = game_with_args(&[1000, 64, 800, 5000, 400]);
    assert_eq!(g.handle_syscall(G_LOCATE_GAME_DATA), Serviced::Done);
    let e = g.g_entities.unwrap();
    assert_eq!((e.address, e.count, e.sizeof), (1000, 64, 800));
    let c = g.clients.unwrap();
    assert_eq!((c.address, c.count, c.sizeof), (5000, MAX_CLIENTS, 400));
    g.linked_entities = vec![1000, 1800, 2600];
    assert_eq!(g.handle_syscall(G_UNLINKENTITY), Serviced::Done);
    assert_eq!(g.linked_entities, vec![1800, 2600]);
    assert_eq!(g.handle_syscall(G_TRACE), Serviced::Host);
    assert_eq!(g.handle_syscall(G_MILLISECONDS), Serviced::Done);
}

#[test]
fn usercmd_syscall_and_frame_angles() {
    let mut g = game_with_args(&[0, 100]);
    g.clients = Some(GameData::new(256, MAX_CLIENTS, 100));
    g.vm.memory.write(256 + 56, 10);
    g.vm.memory.write(256 + 60, (-20i32) as u32);
    g.vm.memory.write(256 + 64, 0);
    g.time = 1234;
    let mut cmd = UserCmd::zeroed();
    cmd.angles = [100, 100, i32::MIN];
    cmd.forward_move = -5;
    assert!(g.begin_frame(cmd));
    assert_eq!(g.usercmd.angles, [90, 120, i32::MIN]);
    assert_eq!(g.usercmd.server_time, 1234);
    assert_eq!(g.handle_syscall(G_GET_USERCMD), Serviced::Done);
    assert_eq!(g.vm.memory.slice(100, 24), &g.usercmd.to_bytes()[..]);
    assert_eq!(g.usercmd.to_bytes()[21], (-5i8) as u8);
    g.end_frame();
    assert_eq!(g.time, 1242);
}

#[test]
fn resume_serves_syscalls_until_return() {
    // Calls the millisecond service, then returns its result.
    let mut code = vec![OP_CONST];
    code.extend_from_slice(&(!G_MILLISECONDS).to_le_bytes());
    code.push(OP_CALL);
    code.push(OP_LEAVE);
    code.extend_from_slice(&0u32.to_le_bytes());
    let mut vm = Vm::default();
    vm.load(&image(&code, 3, 256)).unwrap();
    let mut g = Game::new(vm);
    assert!(g.begin_call(&Game::entry_args(0, 0, 0, 0)));
    assert_eq!(g.resume(100), CallState::Returned(0));
    assert_eq!(g.vm.program_stack, 256);
    let mut trace = vec![OP_CONST];
    trace.extend_from_slice(&(!G_TRACE).to_le_bytes());
    trace.push(OP_CALL);
    let mut vm = Vm::default();
    vm.load(&image(&trace, 2, 256)).unwrap();
    let mut g = Game::new(vm);
    assert!(g.begin_call(&Game::entry_args(0, 0, 0, 0)));
    assert_eq!(g.resume(100), CallState::Host(ExitReason::Syscall(G_TRACE)));
}

#[test]
fn game_snapshot_round_trip() {
    let mut g = game_with_args(&[]);
    g.vm.memory.clear_dirty();
    let baseline = g.take_snapshot(None);
    g.time = 80;
    g.linked_entities = vec![5, 6];
    g.vm.memory.write(100, 42);
    let snap = g.take_snapshot(Some(&baseline));
    let bytes = g.vm.memory.slice(0, g.vm.memory.size()).to_vec();
    g.time = 160;
    g.linked_entities.clear();
    g.vm.memory.write(100, 7);
    g.vm.memory.write(300, 7);
    g.restore_from_snapshot(&snap);
    assert_eq!(g.time, 80);
    assert_eq!(g.linked_entities, vec![5, 6]);
    assert_eq!(g.vm.memory.slice(0, g.vm.memory.size()), &bytes[..]);
}

#[test]
fn link_adds_each_entity_once() {
    let mut g = game_with_args(&[]);
    g.link(7);
    g.link(9);
    g.link(7);
    assert_eq!(g.linked_entities, vec![7, 9]);
}

#[test]
fn cvar_register_syscall_fills_the_vm_cvar() {
    let mut g = game_with_args(&[100, 400, 440]);
    g.vm.memory.write_bytes(400, b"G_Speed\0");
    g.vm.memory.write_bytes(440, b"320\0");
    g.cvars.register("sv_cheats".to_string(), "0".to_string());
    assert_eq!(g.handle_syscall(G_CVAR_REGISTER), Serviced::Host);
    assert_eq!(g.register_cvar(), Serviced::Done);
    assert_eq!(g.vm.memory.read(100), 1);
    assert_eq!(g.vm.memory.read(112), 320);
    assert_eq!(g.vm.memory.slice(116, 4), b"320\0");
    assert_eq!(g.cvars.get_str("g_speed"), "320");
    assert_eq!(g.vm.op_stack, vec![0]);
    let mut null = game_with_args(&[0, 400, 440]);
    null.vm.memory.write_bytes(400, b"a\0");
    null.vm.memory.write_bytes(440, b"b\0");
    assert_eq!(null.register_cvar(), Serviced::Done);
    assert_eq!(null.cvars.get_str("a"), "b");
    let mut bad = game_with_args(&[300, 400, 440]);
    bad.vm.memory.write_bytes(400, b"a\0");
    bad.vm.memory.write_bytes(440, b"b\0");
    assert_eq!(bad.register_cvar(), Serviced::Fault);
}

#[test]
fn strncpy_syscall_reads_only_up_to_the_zero() {
    let mut g = game_with_args(&[100, 508, 16]);
    g.vm.memory.write_bytes(508, b"abc\0");
    assert_eq!(g.handle_syscall(TRAP_STRNCPY), Serviced::Done);
    assert_eq!(g.vm.memory.slice(100, 5), &[b'a', b'b', b'c', 0, 0]);
    let mut no_zero = game_with_args(&[100, 508, 16]);
    no_zero.vm.memory.write_bytes(508, b"abcd");
    assert_eq!(no_zero.handle_syscall(TRAP_STRNCPY), Serviced::Fault);
}

#[test]
fn init_phases_in_order() {
    let mut g = game_with_args(&[]);
    let mut phase = InitPhase::Start;
    let mut exports = Vec::new();
    while let Some(args) = g.init_call(phase) {
        exports.push(args[0]);
        phase = g.init_next(phase, 0).unwrap();
    }
    assert_eq!(
        exports,
        vec![GAME_INIT, GAME_RUN_FRAME, GAME_RUN_FRAME, GAME_RUN_FRAME, GAME_CLIENT_CONNECT, 3]
    );
    assert_eq!(g.time, 300);
    assert_eq!(g.init_time, 300);
    assert_eq!(g.init_call(InitPhase::Settle(1)).unwrap()[1], 300);
}

#[test]
fn refused_connection_carries_the_message() {
    let mut g = game_with_args(&[]);
    g.vm.memory.write_bytes(200, b"server full\0");
    assert_eq!(g.connect_result(0), Ok(()));
    assert_eq!(g.connect_result(200), Err(Some("connect failed: server full".to_string())));
    assert_eq!(
        g.init_next(InitPhase::Connect, 200),
        Err(Some("connect failed: server full".to_string()))
    );
    let mut full = game_with_args(&[]);
    full.vm.memory.memset(0, 1, 512);
    assert_eq!(full.connect_result(10), Err(None));
}
