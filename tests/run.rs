use tasjr::q3::UserCmd;
use tasjr::run::{InputKind, Inputs, Job, SeekPlan, Shared, SNAPSHOT_INTERVAL};

fn cmd(forward: i8, yaw: i32, attack: bool) -> UserCmd {
    let mut c = UserCmd::zeroed();
    c.forward_move = forward;
    c.angles[1] = yaw;
    c.buttons = attack as i32;
    c.weapon = 3;
    c
}

#[test]
fn set_usercmd_round_trips_through_curves() {
    let mut inputs = Inputs::new();
    inputs.set_usercmd(4, cmd(127, 16000, true));
    inputs.set_usercmd(9, cmd(-128, 0, false));
    assert_eq!(inputs.len, 10);
    assert_eq!(inputs.usercmd(4), cmd(127, 16000, true));
    assert_eq!(inputs.usercmd(6), cmd(127, 16000, true));
    assert_eq!(inputs.usercmd(9), cmd(-128, 0, false));
    assert_eq!(inputs.usercmd(3), UserCmd::zeroed());
}

#[test]
fn usercmd_wraps_out_of_range_values() {
    let mut inputs = Inputs::new();
    inputs.set_usercmd(0, cmd(0, 0, false));
    inputs.forwardmove.curve.insert_keyframe(tasjr::animation::Keyframe::new(
        0,
        200,
        tasjr::animation::Interpolation::Hold,
    ));
    assert_eq!(inputs.usercmd(0).forward_move, 200i32 as i8);
}

#[test]
fn channels_in_order_with_ranges() {
    let inputs = Inputs::new();
    let all = inputs.all();
    let names: Vec<&str> = all.iter().map(|i| i.name.as_str()).collect();
    assert_eq!(names, vec!["Pitch", "Yaw", "Roll", "Attack", "Weapon", "Forward", "Back", "Up"]);
    assert_eq!(all[0].range(), (0, 65535));
    assert_eq!(all[3].range(), (0, 1));
    assert_eq!(all[4].range(), (0, 15));
    assert_eq!(all[5].range(), (-128, 127));
    assert_eq!(all[1].kind, InputKind::Angle(1));
}

#[test]
fn inputs_dirty_is_earliest_edit() {
    let mut inputs = Inputs::new();
    inputs.set_usercmd(50, cmd(1, 0, false));
    inputs.clear_dirty();
    assert_eq!(inputs.dirty(), usize::MAX);
    inputs.set_usercmd(300, cmd(2, 0, false));
    inputs.set_usercmd(200, cmd(3, 0, false));
    assert_eq!(inputs.dirty(), 200);
    inputs.clear_dirty();
    inputs.remove_keyframe(250);
    assert_eq!(inputs.dirty(), usize::MAX);
    inputs.remove_keyframe(300);
    assert_eq!(inputs.dirty(), 300);
}

#[test]
fn optimize_keeps_values() {
    let mut inputs = Inputs::new();
    for f in 0..20 {
        inputs.set_usercmd(f, cmd(if f < 10 { 5 } else { 6 }, 0, false));
    }
    let before: Vec<UserCmd> = (0..25).map(|f| inputs.usercmd(f)).collect();
    inputs.optimize();
    let after: Vec<UserCmd> = (0..25).map(|f| inputs.usercmd(f)).collect();
    assert_eq!(before, after);
    assert_eq!(inputs.forwardmove.curve.keyframes_affecting_range(0, 19).len(), 2);
}

fn ladder(valid: usize, processed: usize, len: usize) -> Shared<u32> {
    let mut s = Shared::new(Inputs::new(), 0);
    s.inputs.set_usercmd(len - 1, UserCmd::zeroed());
    s.commit_edit(0);
    for k in 1..valid {
        s.store_snapshot(k, k as u32);
    }
    s.num_processed_usercmds = processed;
    s
}

#[test]
fn seek_plans() {
    let s = ladder(3, 0, 1000);
    assert_eq!(s.num_valid_snapshots, 3);
    assert_eq!(s.plan_seek(false, 11, 10), SeekPlan::Idle);
    assert_eq!(s.plan_seek(false, 10, 10), SeekPlan::Step);
    assert_eq!(s.plan_seek(false, 10, 10 + SNAPSHOT_INTERVAL), SeekPlan::Step);
    assert_eq!(s.plan_seek(false, 10, 11 + SNAPSHOT_INTERVAL), SeekPlan::Restore(1));
    assert_eq!(s.plan_seek(false, 300, 5), SeekPlan::Restore(0));
    assert_eq!(s.plan_seek(true, 11, 10), SeekPlan::Restore(0));
    assert_eq!(s.plan_seek(true, 0, 3 * SNAPSHOT_INTERVAL), SeekPlan::Unavailable);
    assert!(s.has_valid_snapshot(3 * SNAPSHOT_INTERVAL - 1));
    assert!(!s.has_valid_snapshot(3 * SNAPSHOT_INTERVAL));
}

#[test]
fn edit_invalidates_from_its_frame() {
    let mut s = ladder(5, 600, 1000);
    s.begin_edit();
    s.inputs.set_usercmd(130, cmd(1, 0, false));
    let stale = s.commit_edit(400);
    assert!(stale);
    assert_eq!(s.num_valid_snapshots, 130 / SNAPSHOT_INTERVAL + 1);
    assert_eq!(s.num_processed_usercmds, 130);
    s.begin_edit();
    s.inputs.set_usercmd(900, cmd(1, 0, false));
    assert!(!s.commit_edit(400));
    assert_eq!(s.num_valid_snapshots, 2);
}

#[test]
fn worker_jobs_and_publishing() {
    let mut s = ladder(1, 0, 500);
    assert_eq!(s.snapshots.len(), 5);
    let job = s.take_job().unwrap();
    assert_eq!(job, Job { snapshot_num: 1, start: 0, processed: 125 });
    assert!(s.publish(job, 11));
    assert_eq!(s.num_valid_snapshots, 2);
    let job = s.take_job().unwrap();
    assert_eq!(job.snapshot_num, 2);
    assert_eq!(job.start, 125);
    s.begin_edit();
    s.inputs.set_usercmd(10, cmd(1, 0, false));
    s.commit_edit(0);
    assert!(!s.publish(job, 22));
    let stale_job = Job { snapshot_num: 3, start: 250, processed: 375 };
    s.num_processed_usercmds = 375;
    assert!(!s.publish(stale_job, 33));
    s.num_processed_usercmds = 10;
    assert_eq!(s.num_valid_snapshots, 1);
    assert_eq!(s.take_job().unwrap().snapshot_num, 1);
}

#[test]
fn capture_slot_only_when_worker_is_off() {
    let s = ladder(2, 0, 1000);
    assert_eq!(s.capture_slot(true, 250), None);
    assert_eq!(s.capture_slot(false, 250), Some(2));
    assert_eq!(s.capture_slot(false, 251), None);
    assert_eq!(s.capture_slot(false, 375), None);
}

#[test]
fn remove_keyframe_drops_only_that_frame() {
    let mut inputs = Inputs::new();
    inputs.set_usercmd(10, cmd(5, 100, true));
    inputs.set_usercmd(20, cmd(6, 200, false));
    inputs.clear_dirty();
    inputs.remove_keyframe(15);
    assert_eq!(inputs.dirty(), usize::MAX);
    inputs.remove_keyframe(20);
    assert_eq!(inputs.dirty(), 20);
    assert_eq!(inputs.usercmd(25), cmd(5, 100, true));
    assert!(inputs.forwardmove.curve.keyframe(20).is_none());
    assert!(inputs.forwardmove.curve.keyframe(10).is_some());
}
