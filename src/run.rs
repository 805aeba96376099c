use vstd::prelude::*;

use crate::animation::{
    affected_from, has_keyframe_at, lemma_with_keyframe, with_keyframe, without_keyframe, Curve,
    Interpolation, Keyframe,
};
use crate::q3::UserCmd;

verus! {

/// Frames between two snapshots of the ladder: one second of simulation.
pub const SNAPSHOT_INTERVAL: usize = 125;

/// Which field of a `UserCmd` an input channel drives.
#[derive(Clone, Copy, Debug, PartialEq, Eq, Structural)]
pub enum InputKind {
    Angle(u8),
    Button(u8),
    Weapon,
    Move(u8),
}

/// An input channel: a named curve of values for one field of the per-frame command.
pub struct Input {
    pub name: String,
    pub kind: InputKind,
    pub curve: Curve,
}

impl Input {
    pub fn new(name: &str, kind: InputKind) -> (r: Self)
        ensures
            r.name@ == name@,
            r.kind == kind,
            r.curve.wf(),
            r.curve@.len() == 0,
            r.curve.dirty_frame() == usize::MAX,
    {
        Input { name: name.to_owned(), kind, curve: Curve::default() }
    }

    /// The range of values the channel's field can hold.
    pub fn range(&self) -> (r: (isize, isize))
        ensures
            r == match self.kind {
                InputKind::Angle(_) => (0isize, 65535isize),
                InputKind::Button(_) => (0isize, 1isize),
                InputKind::Weapon => (0isize, 15isize),
                InputKind::Move(_) => (-128isize, 127isize),
            },
    {
        match self.kind {
            InputKind::Angle(_) => (0, 65535),
            InputKind::Button(_) => (0, 1),
            InputKind::Weapon => (0, 15),
            InputKind::Move(_) => (-128, 127),
        }
    }
}

/// `v` wrapped to a 32-bit signed integer, as `as i32` truncates.
pub open spec fn as_i32(v: int) -> i32 {
    #[verifier::truncate]
    (v as i32)
}

/// `v` wrapped to an unsigned byte, as `as u8` truncates.
pub open spec fn as_u8(v: int) -> u8 {
    #[verifier::truncate]
    (v as u8)
}

/// `v` wrapped to a signed byte, as `as i8` truncates.
pub open spec fn as_i8(v: int) -> i8 {
    #[verifier::truncate]
    (v as i8)
}

/// Every input channel of a run, each a curve over frames.
pub struct Inputs {
    pub angles: [Input; 3],
    pub buttons: [Input; 1],
    pub weapon: Input,
    pub forwardmove: Input,
    pub rightmove: Input,
    pub upmove: Input,
    /// One past the last frame a command was set for.
    pub len: usize,
}

impl Inputs {
    pub open spec fn wf(&self) -> bool {
        &&& self.angles[0].curve.wf()
        &&& self.angles[1].curve.wf()
        &&& self.angles[2].curve.wf()
        &&& self.buttons[0].curve.wf()
        &&& self.weapon.curve.wf()
        &&& self.forwardmove.curve.wf()
        &&& self.rightmove.curve.wf()
        &&& self.upmove.curve.wf()
    }

    /// The channels in order: pitch, yaw, roll, attack, weapon, forward, right, up.
    pub open spec fn channels(&self) -> Seq<Input> {
        seq![
            self.angles[0],
            self.angles[1],
            self.angles[2],
            self.buttons[0],
            self.weapon,
            self.forwardmove,
            self.rightmove,
            self.upmove,
        ]
    }

    /// The earliest frame that an edit since the last `clear_dirty` may have changed.
    pub open spec fn dirty_frame(&self) -> int {
        let c = self.channels();
        min8(
            c[0].curve.dirty_frame(),
            c[1].curve.dirty_frame(),
            c[2].curve.dirty_frame(),
            c[3].curve.dirty_frame(),
            c[4].curve.dirty_frame(),
            c[5].curve.dirty_frame(),
            c[6].curve.dirty_frame(),
            c[7].curve.dirty_frame(),
        )
    }

    /// The command that the channels give at `frame` (with `server_time` zero).
    pub open spec fn usercmd_at(&self, frame: int) -> UserCmd {
        UserCmd {
            server_time: 0,
            angles: [
                as_i32(self.angles[0].curve.value_at(frame)),
                as_i32(self.angles[1].curve.value_at(frame)),
                as_i32(self.angles[2].curve.value_at(frame)),
            ],
            buttons: if self.buttons[0].curve.value_at(frame) != 0 {
                1
            } else {
                0
            },
            weapon: as_u8(self.weapon.curve.value_at(frame)),
            forward_move: as_i8(self.forwardmove.curve.value_at(frame)),
            right_move: as_i8(self.rightmove.curve.value_at(frame)),
            up_move: as_i8(self.upmove.curve.value_at(frame)),
        }
    }

    pub fn new() -> (r: Self)
        ensures
            r.wf(),
            r.len == 0,
            forall|i: int| 0 <= i < 8 ==> (#[trigger] r.channels()[i]).curve@.len() == 0,
    {
        Inputs {
            angles: [
                Input::new("Pitch", InputKind::Angle(0)),
                Input::new("Yaw", InputKind::Angle(1)),
                Input::new("Roll", InputKind::Angle(2)),
            ],
            buttons: [Input::new("Attack", InputKind::Button(0))],
            weapon: Input::new("Weapon", InputKind::Weapon),
            forwardmove: Input::new("Forward", InputKind::Move(0)),
            rightmove: Input::new("Back", InputKind::Move(1)),
            upmove: Input::new("Up", InputKind::Move(2)),
            len: 0,
        }
    }
}

impl Inputs {
    /// The command that the channels give at `frame`.
    pub fn usercmd(&self, frame: usize) -> (r: UserCmd)
        requires
            self.wf(),
        ensures
            r == self.usercmd_at(frame as int),
    {
        let mut cmd = UserCmd::zeroed();
        cmd.angles = [
            self.angles[0].curve.eval(frame) as i32,
            self.angles[1].curve.eval(frame) as i32,
            self.angles[2].curve.eval(frame) as i32,
        ];
        cmd.buttons = if self.buttons[0].curve.eval(frame) != 0 {
            1
        } else {
            0
        };
        cmd.weapon = self.weapon.curve.eval(frame) as u8;
        cmd.forward_move = self.forwardmove.curve.eval(frame) as i8;
        cmd.right_move = self.rightmove.curve.eval(frame) as i8;
        cmd.up_move = self.upmove.curve.eval(frame) as i8;
        cmd
    }

    /// Pins every channel to `usercmd` at `frame` with a hold keyframe.
    pub fn set_usercmd(&mut self, frame: usize, usercmd: UserCmd)
        requires
            old(self).wf(),
            frame < usize::MAX,
        ensures
            final(self).wf(),
            final(self).len == vstd::math::max(old(self).len as int, frame + 1),
            usercmd_set(*old(self), *final(self), frame, usercmd),
            final(self).dirty_frame() <= frame,
            final(self).dirty_frame() <= old(self).dirty_frame(),
    {
        if frame + 1 > self.len {
            self.len = frame + 1;
        }
        let hold = Interpolation::Hold;
        self.angles[0].curve.insert_keyframe(Keyframe::new(frame, usercmd.angles[0] as isize, hold));
        self.angles[1].curve.insert_keyframe(Keyframe::new(frame, usercmd.angles[1] as isize, hold));
        self.angles[2].curve.insert_keyframe(Keyframe::new(frame, usercmd.angles[2] as isize, hold));
        let pressed: isize = if usercmd.buttons % 2 != 0 { 1 } else { 0 };
        self.buttons[0].curve.insert_keyframe(Keyframe::new(frame, pressed, hold));
        self.weapon.curve.insert_keyframe(Keyframe::new(frame, usercmd.weapon as isize, hold));
        self.forwardmove.curve.insert_keyframe(Keyframe::new(frame, usercmd.forward_move as isize, hold));
        self.rightmove.curve.insert_keyframe(Keyframe::new(frame, usercmd.right_move as isize, hold));
        self.upmove.curve.insert_keyframe(Keyframe::new(frame, usercmd.up_move as isize, hold));
    }

    /// The earliest frame that an edit since the last `clear_dirty` may have changed.
    pub fn dirty(&self) -> (r: usize)
        ensures
            r == self.dirty_frame(),
    {
        let mut d = self.angles[0].curve.dirty();
        d = min_usize(d, self.angles[1].curve.dirty());
        d = min_usize(d, self.angles[2].curve.dirty());
        d = min_usize(d, self.buttons[0].curve.dirty());
        d = min_usize(d, self.weapon.curve.dirty());
        d = min_usize(d, self.forwardmove.curve.dirty());
        d = min_usize(d, self.rightmove.curve.dirty());
        d = min_usize(d, self.upmove.curve.dirty());
        d
    }

    pub fn clear_dirty(&mut self)
        requires
            old(self).wf(),
        ensures
            final(self).wf(),
            final(self).dirty_frame() == usize::MAX,
            forall|i: int| 0 <= i < 8 ==> (#[trigger] final(self).channels()[i]).curve@ == old(self).channels()[i].curve@,
            final(self).len == old(self).len,
    {
        self.angles[0].curve.clear_dirty();
        self.angles[1].curve.clear_dirty();
        self.angles[2].curve.clear_dirty();
        self.buttons[0].curve.clear_dirty();
        self.weapon.curve.clear_dirty();
        self.forwardmove.curve.clear_dirty();
        self.rightmove.curve.clear_dirty();
        self.upmove.curve.clear_dirty();
    }

    /// Removes the keyframe at `frame` from every channel that has one.
    pub fn remove_keyframe(&mut self, frame: usize)
        requires
            old(self).wf(),
        ensures
            final(self).wf(),
            final(self).len == old(self).len,
            final(self).dirty_frame() <= old(self).dirty_frame(),
            final(self).dirty_frame() < old(self).dirty_frame() ==> final(self).dirty_frame() <= frame,
            forall|i: int|
                0 <= i < 8 ==> {
                    let ks = old(self).channels()[i].curve@;
                    &&& (#[trigger] final(self).channels()[i]).curve@ == without_keyframe(ks, frame as int)
                    &&& final(self).channels()[i].curve.dirty_frame() == if has_keyframe_at(ks, frame as int) {
                        vstd::math::min(
                            old(self).channels()[i].curve.dirty_frame(),
                            affected_from(ks, frame as int),
                        )
                    } else {
                        old(self).channels()[i].curve.dirty_frame()
                    }
                },
    {
        self.angles[0].curve.remove_keyframe(frame);
        self.angles[1].curve.remove_keyframe(frame);
        self.angles[2].curve.remove_keyframe(frame);
        self.buttons[0].curve.remove_keyframe(frame);
        self.weapon.curve.remove_keyframe(frame);
        self.forwardmove.curve.remove_keyframe(frame);
        self.rightmove.curve.remove_keyframe(frame);
        self.upmove.curve.remove_keyframe(frame);
    }

    /// Collapses runs of equal hold keyframes on every channel.
    pub fn optimize(&mut self)
        requires
            old(self).wf(),
        ensures
            final(self).wf(),
            final(self).len == old(self).len,
            forall|i: int| 0 <= i < 8 ==> (#[trigger] final(self).channels()[i]).curve@ == crate::animation::collapsed(old(self).channels()[i].curve@),
            forall|t: int| #[trigger] final(self).usercmd_at(t) == old(self).usercmd_at(t),
    {
        self.angles[0].curve.optimize();
        self.angles[1].curve.optimize();
        self.angles[2].curve.optimize();
        self.buttons[0].curve.optimize();
        self.weapon.curve.optimize();
        self.forwardmove.curve.optimize();
        self.rightmove.curve.optimize();
        self.upmove.curve.optimize();
    }

    /// The channels in order: pitch, yaw, roll, attack, weapon, forward, right, up.
    pub fn all(&self) -> (r: Vec<&Input>)
        ensures
            r@.len() == 8,
            forall|i: int| 0 <= i < 8 ==> *(#[trigger] r@[i]) == self.channels()[i],
    {
        let r = vec![
            &self.angles[0],
            &self.angles[1],
            &self.angles[2],
            &self.buttons[0],
            &self.weapon,
            &self.forwardmove,
            &self.rightmove,
            &self.upmove,
        ];
        r
    }
}

fn min_usize(a: usize, b: usize) -> (r: usize)
    ensures
        r == vstd::math::min(a as int, b as int),
{
    if a < b {
        a
    } else {
        b
    }
}

/// What `seek` does to show a frame.
#[derive(Clone, Copy, Debug, PartialEq, Eq, Structural)]
pub enum SeekPlan {
    /// The game already shows the frame and nothing changed.
    Idle,
    /// Simulate forward from the game's current frame.
    Step,
    /// Restore snapshot `k`, then simulate forward.
    Restore(usize),
    /// No valid snapshot covers the frame yet: the game is marked stale.
    Unavailable,
}

/// A piece of work for the snapshot worker: simulate `SNAPSHOT_INTERVAL` frames from `start`
/// (restoring snapshot `snapshot_num - 1` first) to produce snapshot `snapshot_num`.
#[derive(Clone, Copy, Debug, PartialEq, Eq, Structural)]
pub struct Job {
    pub snapshot_num: usize,
    pub start: usize,
    pub processed: usize,
}

/// The state that the foreground and the snapshot worker share: inputs, the snapshot ladder and
/// its two counters.
pub struct Shared<S> {
    pub inputs: Inputs,
    /// `snapshots[k]` holds the state after `k * SNAPSHOT_INTERVAL` frames.
    pub snapshots: Vec<Option<S>>,
    /// Every snapshot below this index reflects the current inputs.
    pub num_valid_snapshots: usize,
    /// The frames the worker has taken on.
    pub num_processed_usercmds: usize,
}

/// Whether the game at `game_frame` can reach `target` by simulating forward.
pub open spec fn can_step_to(stale: bool, game_frame: int, target: int) -> bool {
    !stale && game_frame <= target <= game_frame + SNAPSHOT_INTERVAL
}

/// How to show frame `target`.
pub open spec fn seek_plan(stale: bool, game_frame: int, target: int, num_valid: int) -> SeekPlan {
    if !stale && game_frame == target + 1 {
        SeekPlan::Idle
    } else if can_step_to(stale, game_frame, target) {
        SeekPlan::Step
    } else if target < num_valid * SNAPSHOT_INTERVAL {
        SeekPlan::Restore((target / SNAPSHOT_INTERVAL as int) as usize)
    } else {
        SeekPlan::Unavailable
    }
}

impl<S> Shared<S> {
    pub open spec fn wf(&self) -> bool {
        &&& self.inputs.wf()
        &&& 1 <= self.num_valid_snapshots <= self.snapshots@.len()
        &&& forall|i: int| 0 <= i < self.num_valid_snapshots ==> (#[trigger] self.snapshots@[i]).is_some()
        &&& self.num_processed_usercmds <= self.num_valid_snapshots * SNAPSHOT_INTERVAL
    }

    /// A ladder holding only `first`, the state right after initialisation.
    pub fn new(inputs: Inputs, first: S) -> (r: Self)
        requires
            inputs.wf(),
        ensures
            r.wf(),
            r.num_valid_snapshots == 1,
            r.num_processed_usercmds == 0,
            r.snapshots@.len() == 1,
            r.snapshots@[0] == Some(first),
    {
        let mut snapshots: Vec<Option<S>> = Vec::new();
        snapshots.push(Some(first));
        Shared { inputs, snapshots, num_valid_snapshots: 1, num_processed_usercmds: 0 }
    }

    /// Whether a valid snapshot lies at or before `frame` within one interval.
    pub fn has_valid_snapshot(&self, frame: usize) -> (r: bool)
        ensures
            r == (frame < self.num_valid_snapshots * SNAPSHOT_INTERVAL),
    {
        frame / SNAPSHOT_INTERVAL < self.num_valid_snapshots
    }

    /// Forgets what an edit at `frame` makes stale.
    pub fn invalidate(&mut self, frame: usize)
        requires
            old(self).wf(),
        ensures
            final(self).wf(),
            final(self).num_valid_snapshots == vstd::math::min(
                old(self).num_valid_snapshots as int,
                frame as int / SNAPSHOT_INTERVAL as int + 1,
            ),
            final(self).num_processed_usercmds == vstd::math::min(
                old(self).num_processed_usercmds as int,
                frame as int,
            ),
            final(self).num_valid_snapshots <= frame as int / SNAPSHOT_INTERVAL as int + 1,
            final(self).num_processed_usercmds <= frame,
            final(self).snapshots == old(self).snapshots,
            final(self).inputs == old(self).inputs,
    {
        let k = frame / SNAPSHOT_INTERVAL + 1;
        let v0 = self.num_valid_snapshots;
        let p0 = self.num_processed_usercmds;
        if k < self.num_valid_snapshots {
            self.num_valid_snapshots = k;
        }
        if frame < self.num_processed_usercmds {
            self.num_processed_usercmds = frame;
        }
        proof {
            assert(self.num_processed_usercmds <= self.num_valid_snapshots * SNAPSHOT_INTERVAL) by (nonlinear_arith)
                requires
                    self.num_processed_usercmds <= p0,
                    self.num_processed_usercmds <= frame,
                    p0 <= v0 * 125,
                    self.num_valid_snapshots == v0 || self.num_valid_snapshots == frame / 125 + 1,
                    frame < (frame / 125 + 1) * 125,
            ;
        }
    }

    /// Opens an edit of the inputs: from here on their dirty frame tracks the edit.
    pub fn begin_edit(&mut self)
        requires
            old(self).wf(),
        ensures
            final(self).wf(),
            final(self).inputs.dirty_frame() == usize::MAX,
            final(self).inputs.len == old(self).inputs.len,
            final(self).snapshots == old(self).snapshots,
            final(self).num_valid_snapshots == old(self).num_valid_snapshots,
            final(self).num_processed_usercmds == old(self).num_processed_usercmds,
    {
        self.inputs.clear_dirty();
    }

    /// Closes an edit: invalidates from the earliest frame it changed, grows the ladder to the
    /// inputs' length, and tells whether a game at `game_frame` is now stale.
    pub fn commit_edit(&mut self, game_frame: usize) -> (stale: bool)
        requires
            old(self).wf(),
        ensures
            final(self).wf(),
            stale == (old(self).inputs.dirty_frame() < game_frame),
            edit_committed(*old(self), *final(self)),
            final(self).num_valid_snapshots == vstd::math::min(
                old(self).num_valid_snapshots as int,
                old(self).inputs.dirty_frame() / SNAPSHOT_INTERVAL as int + 1,
            ),
            final(self).num_processed_usercmds == vstd::math::min(
                old(self).num_processed_usercmds as int,
                old(self).inputs.dirty_frame(),
            ),
            final(self).snapshots@.len() == vstd::math::max(
                old(self).snapshots@.len() as int,
                old(self).inputs.len as int / SNAPSHOT_INTERVAL as int + 1,
            ),
            forall|i: int| 0 <= i < old(self).snapshots@.len() ==> final(self).snapshots@[i] == old(self).snapshots@[i],
            final(self).inputs == old(self).inputs,
    {
        let dirty = self.inputs.dirty();
        self.invalidate(dirty);
        let stale = dirty < game_frame;
        let wanted = self.inputs.len / SNAPSHOT_INTERVAL + 1;
        let ghost before = self.snapshots@;
        while self.snapshots.len() < wanted
            invariant
                self.wf(),
                self.snapshots@.len() <= vstd::math::max(before.len() as int, wanted as int),
                self.snapshots@.len() >= before.len(),
                forall|i: int| 0 <= i < before.len() ==> self.snapshots@[i] == before[i],
                self.num_valid_snapshots == vstd::math::min(
                    old(self).num_valid_snapshots as int,
                    old(self).inputs.dirty_frame() / SNAPSHOT_INTERVAL as int + 1,
                ),
                self.num_processed_usercmds == vstd::math::min(
                    old(self).num_processed_usercmds as int,
                    old(self).inputs.dirty_frame(),
                ),
                self.inputs == old(self).inputs,
            decreases wanted - self.snapshots@.len(),
        {
            self.snapshots.push(None);
        }
        stale
    }

    /// How to show `target` from a game at `game_frame`.
    pub fn plan_seek(&self, stale: bool, game_frame: usize, target: usize) -> (r: SeekPlan)
        requires
            self.wf(),
        ensures
            r == seek_plan(stale, game_frame as int, target as int, self.num_valid_snapshots as int),
            r matches SeekPlan::Restore(k) ==> k < self.num_valid_snapshots && self.snapshots@[k as int].is_some(),
    {
        if !stale && target < usize::MAX && game_frame == target + 1 {
            SeekPlan::Idle
        } else if !stale && game_frame <= target && target - game_frame <= SNAPSHOT_INTERVAL {
            SeekPlan::Step
        } else if self.has_valid_snapshot(target) {
            SeekPlan::Restore(target / SNAPSHOT_INTERVAL)
        } else {
            SeekPlan::Unavailable
        }
    }

    /// While simulating with the worker off: the ladder slot that the game, having reached
    /// `frame`, should fill now, if any (the first invalid one, on an interval boundary).
    pub fn capture_slot(&self, worker_enabled: bool, frame: usize) -> (r: Option<usize>)
        ensures
            r == (if !worker_enabled && frame % SNAPSHOT_INTERVAL == 0 && frame / SNAPSHOT_INTERVAL
                == self.num_valid_snapshots && self.num_valid_snapshots < self.snapshots@.len() {
                Some(self.num_valid_snapshots)
            } else {
                None::<usize>
            }),
    {
        if !worker_enabled && frame % SNAPSHOT_INTERVAL == 0 && frame / SNAPSHOT_INTERVAL
            == self.num_valid_snapshots && self.num_valid_snapshots < self.snapshots.len() {
            Some(self.num_valid_snapshots)
        } else {
            None
        }
    }

    /// Puts the snapshot for the first invalid slot `k` on the ladder.
    pub fn store_snapshot(&mut self, k: usize, snapshot: S)
        requires
            old(self).wf(),
            k == old(self).num_valid_snapshots,
            k < old(self).snapshots@.len(),
        ensures
            final(self).wf(),
            final(self).snapshots@ == old(self).snapshots@.update(k as int, Some(snapshot)),
            final(self).num_valid_snapshots == k + 1,
            final(self).num_processed_usercmds == old(self).num_processed_usercmds,
            final(self).inputs == old(self).inputs,
    {
        let _n = self.snapshots.len();
        self.snapshots.set(k, Some(snapshot));
        self.num_valid_snapshots = k + 1;
        proof {
            assert(self.num_processed_usercmds <= self.num_valid_snapshots * SNAPSHOT_INTERVAL) by (nonlinear_arith)
                requires
                    self.num_processed_usercmds <= k * 125,
                    self.num_valid_snapshots == k + 1,
            ;
        }
    }

    /// Hands the worker its next job, if a snapshot is invalid: the first interval past the
    /// frames it has taken on, starting from a valid snapshot.
    pub fn take_job(&mut self) -> (r: Option<Job>)
        requires
            old(self).wf(),
        ensures
            final(self).snapshots == old(self).snapshots,
            final(self).num_valid_snapshots == old(self).num_valid_snapshots,
            final(self).inputs == old(self).inputs,
            ({
                let k = old(self).num_processed_usercmds as int / SNAPSHOT_INTERVAL as int + 1;
                if old(self).num_valid_snapshots < old(self).snapshots@.len() && k <= old(self).num_valid_snapshots
                    && k < old(self).snapshots@.len() && k <= usize::MAX as int / SNAPSHOT_INTERVAL as int {
                    &&& r == Some(Job { snapshot_num: k as usize, start: ((k - 1) * SNAPSHOT_INTERVAL) as usize, processed: (k * SNAPSHOT_INTERVAL) as usize })
                    &&& final(self).num_processed_usercmds == k * SNAPSHOT_INTERVAL
                    &&& final(self).snapshots@[k - 1].is_some()
                } else {
                    &&& r.is_none()
                    &&& final(self).num_processed_usercmds == old(self).num_processed_usercmds
                }
            }),
            final(self).wf(),
    {
        let v = self.num_valid_snapshots;
        let n = self.snapshots.len();
        let k = self.num_processed_usercmds / SNAPSHOT_INTERVAL + 1;
        if v < n && k <= v && k < n && k <= usize::MAX / SNAPSHOT_INTERVAL {
            proof {
                assert(k * 125 <= usize::MAX) by (nonlinear_arith)
                    requires k <= usize::MAX / 125;
            }
            let processed = k * SNAPSHOT_INTERVAL;
            self.num_processed_usercmds = processed;
            proof {
                assert(processed <= v * 125) by (nonlinear_arith)
                    requires processed == k * 125, k <= v;
                assert((k - 1) * 125 <= processed) by (nonlinear_arith)
                    requires processed == k * 125, k >= 1;
            }
            Some(Job { snapshot_num: k, start: (k - 1) * SNAPSHOT_INTERVAL, processed })
        } else {
            proof {
                assert(self.num_processed_usercmds <= (self.num_valid_snapshots + 1) * 125) by (nonlinear_arith)
                    requires self.num_processed_usercmds <= self.num_valid_snapshots * 125;
            }
            None
        }
    }

    /// Publishes the worker's result for `job`, unless an edit since it was taken has
    /// invalidated the work or the snapshot it started from.
    pub fn publish(&mut self, job: Job, snapshot: S) -> (published: bool)
        requires
            old(self).wf(),
            job.processed == job.snapshot_num * SNAPSHOT_INTERVAL,
        ensures
            published == (old(self).num_processed_usercmds == job.processed && job.snapshot_num
                < old(self).snapshots@.len() && job.snapshot_num <= old(self).num_valid_snapshots),
            published ==> final(self).snapshots@ == old(self).snapshots@.update(
                job.snapshot_num as int,
                Some(snapshot),
            ) && final(self).num_valid_snapshots == job.snapshot_num + 1,
            !published ==> final(self).snapshots == old(self).snapshots
                && final(self).num_valid_snapshots == old(self).num_valid_snapshots,
            final(self).num_processed_usercmds == old(self).num_processed_usercmds,
            final(self).inputs == old(self).inputs,
            final(self).wf(),
    {
        let k = job.snapshot_num;
        if self.num_processed_usercmds == job.processed && k < self.snapshots.len() && k
            <= self.num_valid_snapshots {
            self.snapshots.set(k, Some(snapshot));
            self.num_valid_snapshots = k + 1;
            proof {
                assert(self.num_processed_usercmds <= self.num_valid_snapshots * 125) by (nonlinear_arith)
                    requires self.num_processed_usercmds == k * 125, self.num_valid_snapshots == k + 1;
            }
            true
        } else {
            false
        }
    }
}

/// The state reached from `state` at frame `from` by simulating each frame up to `to`, where
/// `advance(s, n)` simulates frame `n` from state `s`.
pub open spec fn simulate<S>(advance: spec_fn(S, int) -> S, state: S, from: int, to: int) -> S
    decreases to - from,
{
    if from >= to {
        state
    } else {
        simulate(advance, advance(state, from), from + 1, to)
    }
}

/// The state that carrying out `plan` for `target` leaves: simulation from the current state,
/// or from snapshot `k`, up to the frame after `target`.
pub open spec fn seek_result<S>(
    advance: spec_fn(S, int) -> S,
    plan: SeekPlan,
    current: S,
    game_frame: int,
    snapshot: spec_fn(int) -> S,
    target: int,
) -> S {
    match plan {
        SeekPlan::Idle => current,
        SeekPlan::Step => simulate(advance, current, game_frame, target + 1),
        SeekPlan::Restore(k) => simulate(advance, snapshot(k as int), k * SNAPSHOT_INTERVAL, target + 1),
        SeekPlan::Unavailable => current,
    }
}

proof fn lemma_simulate_split<S>(advance: spec_fn(S, int) -> S, s: S, a: int, m: int, b: int)
    requires
        a <= m <= b,
    ensures
        simulate(advance, simulate(advance, s, a, m), m, b) == simulate(advance, s, a, b),
    decreases m - a,
{
    if a < m {
        lemma_simulate_split(advance, advance(s, a), a + 1, m, b);
    }
}

/// Seeking is deterministic: whatever seeks came before, as long as the game (when not stale)
/// and every valid snapshot hold the replay of the current inputs, a seek to `target` that
/// finds a way leaves the replay of frames `0..=target`, the same state as a seek from a fresh
/// start.
pub proof fn lemma_seek_deterministic<S>(
    advance: spec_fn(S, int) -> S,
    init: S,
    current: S,
    stale: bool,
    game_frame: int,
    target: int,
    num_valid: int,
    snapshot: spec_fn(int) -> S,
)
    requires
        0 <= game_frame,
        0 <= target <= usize::MAX,
        !stale ==> current == simulate(advance, init, 0, game_frame),
        forall|k: int| 0 <= k < num_valid ==> #[trigger] snapshot(k) == simulate(
            advance,
            init,
            0,
            k * SNAPSHOT_INTERVAL,
        ),
        seek_plan(stale, game_frame, target, num_valid) != SeekPlan::Unavailable,
    ensures
        seek_result(
            advance,
            seek_plan(stale, game_frame, target, num_valid),
            current,
            game_frame,
            snapshot,
            target,
        ) == simulate(advance, init, 0, target + 1),
{
    let plan = seek_plan(stale, game_frame, target, num_valid);
    match plan {
        SeekPlan::Idle => {},
        SeekPlan::Step => {
            lemma_simulate_split(advance, init, 0, game_frame, target + 1);
        },
        SeekPlan::Restore(k) => {
            let kk = target / SNAPSHOT_INTERVAL as int;
            assert(0 <= kk <= target);
            assert(k == kk);
            assert(0 <= kk * 125 <= target) by (nonlinear_arith)
                requires
                    kk == target / 125,
                    target >= 0,
            ;
            assert(kk < num_valid) by (nonlinear_arith)
                requires
                    kk == target / 125,
                    target < num_valid * 125,
                    target >= 0,
            ;
            assert(snapshot(kk) == simulate(advance, init, 0, kk * SNAPSHOT_INTERVAL));
            lemma_simulate_split(advance, init, 0, kk * SNAPSHOT_INTERVAL, target + 1);
        },
        SeekPlan::Unavailable => {},
    }
}

/// How `commit_edit` moves the counters of `before` to `after`.
pub open spec fn edit_committed<S>(before: Shared<S>, after: Shared<S>) -> bool {
    &&& after.num_valid_snapshots == vstd::math::min(
        before.num_valid_snapshots as int,
        before.inputs.dirty_frame() / SNAPSHOT_INTERVAL as int + 1,
    )
    &&& after.num_processed_usercmds == vstd::math::min(
        before.num_processed_usercmds as int,
        before.inputs.dirty_frame(),
    )
}

/// Invalidation is monotone: once an edit that changed frame `f` and nothing earlier (so the
/// inputs' dirty frame is at most `f`) is committed, at most `f / SNAPSHOT_INTERVAL + 1`
/// snapshots count as valid and the worker counts at most `f` frames as processed.
pub proof fn lemma_edit_invalidates<S>(before: Shared<S>, after: Shared<S>, f: int)
    requires
        before.inputs.dirty_frame() <= f,
        edit_committed(before, after),
    ensures
        after.num_valid_snapshots <= f / SNAPSHOT_INTERVAL as int + 1,
        after.num_processed_usercmds <= f,
{
    assert(before.inputs.dirty_frame() / 125 <= f / 125) by (nonlinear_arith)
        requires
            before.inputs.dirty_frame() <= f,
    ;
}

/// The hold keyframe that `set_usercmd` puts at `frame` with value `v`.
pub open spec fn hold_at(frame: usize, v: int) -> Keyframe {
    Keyframe { time: frame, value: v as isize, interpolation: Interpolation::Hold }
}

/// `after` is `before` with every channel pinned to `c` at `frame`.
pub open spec fn usercmd_set(before: Inputs, after: Inputs, frame: usize, c: UserCmd) -> bool {
    &&& after.angles[0].curve@ == with_keyframe(before.angles[0].curve@, hold_at(frame, c.angles[0] as int))
    &&& after.angles[1].curve@ == with_keyframe(before.angles[1].curve@, hold_at(frame, c.angles[1] as int))
    &&& after.angles[2].curve@ == with_keyframe(before.angles[2].curve@, hold_at(frame, c.angles[2] as int))
    &&& after.buttons[0].curve@ == with_keyframe(
        before.buttons[0].curve@,
        hold_at(frame, if c.buttons % 2 != 0 { 1 } else { 0 }),
    )
    &&& after.weapon.curve@ == with_keyframe(before.weapon.curve@, hold_at(frame, c.weapon as int))
    &&& after.forwardmove.curve@ == with_keyframe(before.forwardmove.curve@, hold_at(frame, c.forward_move as int))
    &&& after.rightmove.curve@ == with_keyframe(before.rightmove.curve@, hold_at(frame, c.right_move as int))
    &&& after.upmove.curve@ == with_keyframe(before.upmove.curve@, hold_at(frame, c.up_move as int))
}

/// Setting a command at a frame and reading that frame back gives the command, with a zero
/// server time and the attack button as its only button.
pub proof fn lemma_usercmd_round_trip(before: Inputs, after: Inputs, frame: usize, c: UserCmd)
    requires
        before.wf(),
        usercmd_set(before, after, frame, c),
    ensures
        after.usercmd_at(frame as int) == (UserCmd {
            server_time: 0,
            buttons: if c.buttons % 2 != 0 { 1 } else { 0 },
            ..c
        }),
{
    lemma_with_keyframe(before.angles[0].curve@, hold_at(frame, c.angles[0] as int));
    lemma_with_keyframe(before.angles[1].curve@, hold_at(frame, c.angles[1] as int));
    lemma_with_keyframe(before.angles[2].curve@, hold_at(frame, c.angles[2] as int));
    lemma_with_keyframe(before.buttons[0].curve@, hold_at(frame, if c.buttons % 2 != 0 { 1 } else { 0 }));
    lemma_with_keyframe(before.weapon.curve@, hold_at(frame, c.weapon as int));
    lemma_with_keyframe(before.forwardmove.curve@, hold_at(frame, c.forward_move as int));
    lemma_with_keyframe(before.rightmove.curve@, hold_at(frame, c.right_move as int));
    lemma_with_keyframe(before.upmove.curve@, hold_at(frame, c.up_move as int));
    let r = after.usercmd_at(frame as int);
    assert(r.angles@ =~= c.angles@);
    assert(r.angles == c.angles);
}

pub open spec fn min8(a: int, b: int, c: int, d: int, e: int, f: int, g: int, h: int) -> int {
    vstd::math::min(
        vstd::math::min(vstd::math::min(a, b), vstd::math::min(c, d)),
        vstd::math::min(vstd::math::min(e, f), vstd::math::min(g, h)),
    )
}

} // verus!
