use vstd::prelude::*;
use vstd::math::min;

verus! {

/// How a curve moves from one keyframe to the next.
#[derive(Clone, Copy, Debug, PartialEq, Eq, Structural)]
pub enum Interpolation {
    Hold,
    Linear,
}

/// A value pinned to a frame.
#[derive(Clone, Copy, Debug)]
pub struct Keyframe {
    pub time: usize,
    pub value: isize,
    pub interpolation: Interpolation,
}

impl Keyframe {
    pub fn new(time: usize, value: isize, interpolation: Interpolation) -> (r: Self)
        ensures
            r.time == time,
            r.value == value,
            r.interpolation == interpolation,
    {
        Self { time, value, interpolation }
    }
}

/// Keyframe times strictly increase.
pub open spec fn sorted(ks: Seq<Keyframe>) -> bool {
    forall|i: int, j: int| 0 <= i < j < ks.len() ==> ks[i].time < ks[j].time
}

/// The number of keyframes strictly before `t`; in a sorted sequence, the index at which a
/// keyframe at `t` stands or would be inserted.
pub open spec fn num_before(ks: Seq<Keyframe>, t: int) -> nat
    decreases ks.len(),
{
    if ks.len() == 0 {
        0
    } else if ks.last().time < t {
        ks.len()
    } else {
        num_before(ks.drop_last(), t)
    }
}

/// Integer division rounding toward zero.
pub open spec fn div_trunc(n: int, d: int) -> int {
    if (n >= 0) == (d > 0) || n == 0 {
        abs(n) / abs(d)
    } else {
        -(abs(n) / abs(d))
    }
}

pub open spec fn abs(x: int) -> int {
    if x < 0 { -x } else { x }
}

/// The value between keyframes `a` and `b` (with `a.time <= t < b.time`).
pub open spec fn segment_value(a: Keyframe, b: Keyframe, t: int) -> int {
    if t == a.time {
        a.value as int
    } else {
        match a.interpolation {
            Interpolation::Hold => a.value as int,
            Interpolation::Linear => {
                let dt = b.time - a.time;
                a.value + div_trunc((b.value - a.value) * (t - a.time) + dt / 2, dt)
            },
        }
    }
}

/// The value of a curve with keyframes `ks` at time `t`: zero before the first keyframe, the
/// keyframe's value on it, the interpolation of the earlier neighbour between two keyframes,
/// and the last keyframe's value after it.
pub open spec fn curve_value(ks: Seq<Keyframe>, t: int) -> int
    decreases ks.len(),
{
    if ks.len() == 0 || t < ks[0].time {
        0
    } else if ks.len() == 1 {
        ks[0].value as int
    } else if t < ks[1].time {
        segment_value(ks[0], ks[1], t)
    } else {
        curve_value(ks.drop_first(), t)
    }
}

/// The first frame whose value changes when keyframes at `t` change: a linear segment that
/// ends at `t` changes from the frame after its start.
pub open spec fn affected_from(ks: Seq<Keyframe>, t: int) -> int {
    let i = num_before(ks, t);
    if i > 0 && ks[i - 1].interpolation == Interpolation::Linear {
        ks[i - 1].time + 1
    } else {
        t
    }
}

/// The keyframes with a keyframe at the same time as `k` replaced by `k`, or `k` inserted in
/// order.
pub open spec fn with_keyframe(ks: Seq<Keyframe>, k: Keyframe) -> Seq<Keyframe> {
    let i = num_before(ks, k.time as int) as int;
    if i < ks.len() && ks[i].time == k.time {
        ks.update(i, k)
    } else {
        ks.insert(i, k)
    }
}

/// Whether a sorted curve has a keyframe at `t`.
pub open spec fn has_keyframe_at(ks: Seq<Keyframe>, t: int) -> bool {
    let i = num_before(ks, t) as int;
    i < ks.len() && ks[i].time == t
}

/// The keyframes without the one at `t`, if there is one.
pub open spec fn without_keyframe(ks: Seq<Keyframe>, t: int) -> Seq<Keyframe> {
    if has_keyframe_at(ks, t) {
        ks.remove(num_before(ks, t) as int)
    } else {
        ks
    }
}

/// Whether `b` adds nothing after `a`: both hold the same value.
pub open spec fn redundant(a: Keyframe, b: Keyframe) -> bool {
    a.interpolation == Interpolation::Hold && b.interpolation == Interpolation::Hold && a.value
        == b.value
}

/// The keyframes with every run of equal-valued hold keyframes collapsed to its first.
pub open spec fn collapsed(ks: Seq<Keyframe>) -> Seq<Keyframe>
    decreases ks.len(),
{
    if ks.len() == 0 {
        ks
    } else {
        let c = collapsed(ks.drop_last());
        if c.len() > 0 && redundant(c.last(), ks.last()) {
            c
        } else {
            c.push(ks.last())
        }
    }
}

/// The first frame that collapsing changes, or `usize::MAX` if it changes none.
pub open spec fn collapse_dirty(ks: Seq<Keyframe>) -> int
    decreases ks.len(),
{
    if ks.len() == 0 {
        usize::MAX as int
    } else {
        let c = collapsed(ks.drop_last());
        let d = collapse_dirty(ks.drop_last());
        if c.len() > 0 && redundant(c.last(), ks.last()) && (ks.last().time as int) < d {
            ks.last().time as int
        } else {
            d
        }
    }
}


/// The times of a sorted sequence's keyframes split at `i` around `t` fix `num_before`.
proof fn lemma_num_before(ks: Seq<Keyframe>, t: int, i: int)
    requires
        sorted(ks),
        0 <= i <= ks.len(),
        forall|j: int| 0 <= j < i ==> ks[j].time < t,
        forall|j: int| i <= j < ks.len() ==> ks[j].time >= t,
    ensures
        num_before(ks, t) == i,
    decreases ks.len(),
{
    if ks.len() > 0 && i < ks.len() {
        lemma_num_before(ks.drop_last(), t, i);
    }
}

proof fn lemma_num_before_bounds(ks: Seq<Keyframe>, t: int)
    requires
        sorted(ks),
    ensures
        num_before(ks, t) <= ks.len(),
        forall|j: int| 0 <= j < num_before(ks, t) ==> ks[j].time < t,
        forall|j: int| num_before(ks, t) <= j < ks.len() ==> ks[j].time >= t,
    decreases ks.len(),
{
    if ks.len() > 0 {
        if ks.last().time >= t {
            let p = ks.drop_last();
            assert(sorted(p));
            lemma_num_before_bounds(p, t);
            assert forall|j: int| num_before(ks, t) <= j < ks.len() implies ks[j].time >= t by {
                if j < p.len() {
                    assert(ks[j] == p[j]);
                }
            }
            assert forall|j: int| 0 <= j < num_before(ks, t) implies ks[j].time < t by {
                assert(ks[j] == p[j]);
            }
        } else {
            assert forall|j: int| 0 <= j < ks.len() implies ks[j].time < t by {
                if j < ks.len() - 1 {
                    assert(ks[j].time < ks[ks.len() - 1].time);
                }
            }
        }
    }
}

proof fn lemma_value_in_segment(ks: Seq<Keyframe>, i: int, t: int)
    requires
        sorted(ks),
        0 <= i,
        i + 1 < ks.len(),
        ks[i].time <= t < ks[i + 1].time,
    ensures
        curve_value(ks, t) == segment_value(ks[i], ks[i + 1], t),
    decreases i,
{
    if i > 0 {
        lemma_value_in_segment(ks.drop_first(), i - 1, t);
    }
}

proof fn lemma_value_after_last(ks: Seq<Keyframe>, t: int)
    requires
        sorted(ks),
        ks.len() > 0,
        t >= ks.last().time,
    ensures
        curve_value(ks, t) == ks.last().value,
    decreases ks.len(),
{
    if ks.len() > 1 {
        lemma_value_after_last(ks.drop_first(), t);
    }
}

proof fn lemma_value_at_keyframe(ks: Seq<Keyframe>, i: int)
    requires
        sorted(ks),
        0 <= i < ks.len(),
    ensures
        curve_value(ks, ks[i].time as int) == ks[i].value,
{
    if i + 1 < ks.len() {
        lemma_value_in_segment(ks, i, ks[i].time as int);
    } else {
        lemma_value_after_last(ks, ks[i].time as int);
    }
}

/// Putting a keyframe on a sorted curve keeps it sorted, and the curve then takes the
/// keyframe's value at its time.
pub proof fn lemma_with_keyframe(ks: Seq<Keyframe>, k: Keyframe)
    requires
        sorted(ks),
    ensures
        sorted(with_keyframe(ks, k)),
        curve_value(with_keyframe(ks, k), k.time as int) == k.value,
{
    let i = num_before(ks, k.time as int) as int;
    lemma_num_before_bounds(ks, k.time as int);
    let n = with_keyframe(ks, k);
    if i < ks.len() && ks[i].time == k.time {
        assert forall|a: int, b: int| 0 <= a < b < n.len() implies n[a].time < n[b].time by {
            assert(ks[a].time < ks[b].time);
        }
    } else {
        assert forall|a: int, b: int| 0 <= a < b < n.len() implies n[a].time < n[b].time by {
            if b < i {
            } else if a < i && b == i {
            } else if a < i {
                assert(n[b] == ks[b - 1]);
            } else if a == i {
                assert(n[b] == ks[b - 1]);
                if b - 1 > i {
                    assert(ks[i].time < ks[b - 1].time);
                }
            } else {
                assert(n[a] == ks[a - 1]);
                assert(n[b] == ks[b - 1]);
            }
        }
    }
    assert(n[i] == k);
    lemma_value_at_keyframe(n, i);
}

/// The value of a sorted curve with one more keyframe `k` after all the others.
proof fn lemma_value_push(xs: Seq<Keyframe>, k: Keyframe, t: int)
    requires
        sorted(xs),
        forall|j: int| 0 <= j < xs.len() ==> xs[j].time < k.time,
    ensures
        curve_value(xs.push(k), t) == if t >= k.time {
            k.value as int
        } else if xs.len() == 0 || t < xs.last().time {
            curve_value(xs, t)
        } else {
            segment_value(xs.last(), k, t)
        },
    decreases xs.len(),
{
    let ys = xs.push(k);
    if xs.len() == 0 {
        assert(ys[0] == k);
        assert(curve_value(ys, t) == if t >= k.time { k.value as int } else { 0 });
    } else if t < xs[0].time {
        assert(ys[0] == xs[0]);
        assert(xs[0].time <= xs.last().time);
        assert(curve_value(ys, t) == 0);
        assert(curve_value(xs, t) == 0);
    } else if xs.len() == 1 {
        assert(ys[0] == xs[0] && ys[1] == k);
        assert(ys.drop_first() =~= seq![k]);
        if t >= k.time {
            assert(curve_value(ys, t) == curve_value(seq![k], t));
            assert(seq![k][0] == k);
            assert(curve_value(seq![k], t) == k.value);
        } else {
            assert(curve_value(ys, t) == segment_value(xs[0], k, t));
        }
    } else if t < xs[1].time {
        assert(ys[0] == xs[0] && ys[1] == xs[1]);
        assert(xs[1].time <= xs.last().time);
        assert(xs[1].time < k.time);
        assert(curve_value(ys, t) == segment_value(xs[0], xs[1], t));
        assert(curve_value(xs, t) == segment_value(xs[0], xs[1], t));
    } else {
        assert(ys[0] == xs[0] && ys[1] == xs[1]);
        let rest = xs.drop_first();
        assert(ys.drop_first() =~= rest.push(k));
        assert(rest.last() == xs.last());
        assert(sorted(rest));
        lemma_value_push(rest, k, t);
        assert(curve_value(ys, t) == curve_value(rest.push(k), t));
        assert(curve_value(xs, t) == curve_value(rest, t));
    }
}

/// Facts about `collapsed` that carry over from `ks` to `ks.push(k)`.
proof fn lemma_collapsed(ks: Seq<Keyframe>)
    requires
        sorted(ks),
        ks.len() > 0,
    ensures
        sorted(collapsed(ks)),
        collapsed(ks).len() > 0,
        collapsed(ks).last().time <= ks.last().time,
        collapsed(ks).last() == ks.last() || (redundant(collapsed(ks).last(), ks.last())
            && collapsed(ks).last().time < ks.last().time),
        forall|t: int| #[trigger] curve_value(collapsed(ks), t) == curve_value(ks, t),
    decreases ks.len(),
{
    let p = ks.drop_last();
    let k = ks.last();
    assert(ks =~= p.push(k));
    if p.len() == 0 {
        assert(collapsed(p) =~= Seq::<Keyframe>::empty());
        assert(collapsed(ks) =~= seq![k]);
    } else {
        assert(sorted(p));
        lemma_collapsed(p);
        let c0 = collapsed(p);
        assert(p.last().time < k.time);
        assert forall|j: int| 0 <= j < p.len() implies p[j].time < k.time by {
            assert(ks[j] == p[j]);
        }
        assert forall|j: int| 0 <= j < c0.len() implies c0[j].time < k.time by {
            if j < c0.len() - 1 {
                assert(c0[j].time < c0.last().time);
            }
        }
        if redundant(c0.last(), k) {
            assert(collapsed(ks) == c0);
            assert forall|t: int| #[trigger] curve_value(collapsed(ks), t) == curve_value(ks, t) by {
                lemma_value_push(p, k, t);
                if t >= c0.last().time {
                    lemma_value_after_last(c0, t);
                }
                if t >= p.last().time {
                    lemma_value_after_last(p, t);
                }
            }
        } else {
            let c = c0.push(k);
            assert(collapsed(ks) == c);
            assert(sorted(c)) by {
                assert forall|a: int, b: int| 0 <= a < b < c.len() implies c[a].time < c[b].time by {
                    if b == c.len() - 1 {
                        assert(c[a] == c0[a]);
                    } else {
                        assert(c[a] == c0[a] && c[b] == c0[b]);
                    }
                }
            }
            assert forall|t: int| #[trigger] curve_value(collapsed(ks), t) == curve_value(ks, t) by {
                lemma_value_push(p, k, t);
                lemma_value_push(c0, k, t);
                if t >= c0.last().time {
                    lemma_value_after_last(c0, t);
                }
                if t >= p.last().time {
                    lemma_value_after_last(p, t);
                }
            }
        }
    }
}

/// Collapsing runs of equal hold keyframes keeps the curve's value at every frame.
pub proof fn lemma_optimize_keeps_values(ks: Seq<Keyframe>, t: int)
    requires
        sorted(ks),
    ensures
        curve_value(collapsed(ks), t) == curve_value(ks, t),
{
    if ks.len() > 0 {
        lemma_collapsed(ks);
    } else {
        assert(collapsed(ks) =~= ks);
    }
}

/// An animation curve: a function of time defined by keyframes in order of time.
pub struct Curve {
    keyframes: Vec<Keyframe>,
    dirty: usize,
}

impl View for Curve {
    type V = Seq<Keyframe>;

    closed spec fn view(&self) -> Seq<Keyframe> {
        self.keyframes@
    }
}

impl Default for Curve {
    fn default() -> (r: Self)
        ensures
            r.wf(),
            r@.len() == 0,
            r.dirty_frame() == usize::MAX,
    {
        Curve { keyframes: Vec::new(), dirty: usize::MAX }
    }
}

impl Curve {
    /// The earliest frame that an edit since the last `clear_dirty` may have changed.
    pub closed spec fn dirty_frame(&self) -> int {
        self.dirty as int
    }

    pub open spec fn wf(&self) -> bool {
        sorted(self@)
    }

    /// The curve's value at `t`.
    pub open spec fn value_at(&self, t: int) -> int {
        curve_value(self@, t)
    }

    pub fn keyframe_index(&self, time: usize) -> (r: Result<usize, usize>)
        requires
            self.wf(),
        ensures
            match r {
                Ok(i) => i == num_before(self@, time as int) && i < self@.len() && self@[i as int].time
                    == time,
                Err(i) => i == num_before(self@, time as int) && i <= self@.len() && (i == self@.len() || self@[i as int].time
                    > time),
            },
    {
        let mut lo: usize = 0;
        let mut hi: usize = self.keyframes.len();
        while lo < hi
            invariant
                sorted(self@),
                0 <= lo <= hi <= self@.len(),
                forall|j: int| 0 <= j < lo ==> self@[j].time < time,
                forall|j: int| hi <= j < self@.len() ==> self@[j].time >= time,
            decreases hi - lo,
        {
            let mid = lo + (hi - lo) / 2;
            if self.keyframes[mid].time < time {
                lo = mid + 1;
            } else {
                hi = mid;
            }
        }
        proof {
            lemma_num_before(self@, time as int, lo as int);
        }
        if lo < self.keyframes.len() && self.keyframes[lo].time == time {
            Ok(lo)
        } else {
            Err(lo)
        }
    }

    /// The keyframe at `time`, if there is one.
    pub fn keyframe(&self, time: usize) -> (r: Option<Keyframe>)
        requires
            self.wf(),
        ensures
            match r {
                Some(k) => exists|i: int| 0 <= i < self@.len() && self@[i] == k && k.time == time,
                None => forall|i: int| 0 <= i < self@.len() ==> self@[i].time != time,
            },
    {
        match self.keyframe_index(time) {
            Ok(i) => Some(self.keyframes[i]),
            Err(i) => {
                proof {
                    lemma_num_before_bounds(self@, time as int);
                    assert forall|j: int| 0 <= j < self@.len() implies self@[j].time != time by {
                        if j > i {
                            assert(self@[i as int].time < self@[j].time);
                        }
                    }
                }
                None
            },
        }
    }

    /// The keyframe at `time` for editing in place, if there is one; the edit must keep its
    /// time for the curve to stay well formed. Counts as an edit at `time` either way.
    pub fn keyframe_mut(&mut self, time: usize) -> (r: Option<&mut Keyframe>)
        requires
            old(self).wf(),
        ensures
            final(self).dirty_frame() == min(
                old(self).dirty_frame(),
                affected_from(old(self)@, time as int),
            ),
            ({
                let i = num_before(old(self)@, time as int) as int;
                if i < old(self)@.len() && old(self)@[i].time == time {
                    &&& r matches Some(k)
                    &&& *k == old(self)@[i]
                    &&& final(self)@ == old(self)@.update(i, *final(k))
                } else {
                    &&& r.is_none()
                    &&& final(self)@ == old(self)@
                }
            }),
    {
        self.mark_dirty(time);
        match self.keyframe_index(time) {
            Ok(i) => Some(&mut self.keyframes[i]),
            Err(_) => None,
        }
    }

    pub fn first_keyframe(&self) -> (r: Option<Keyframe>)
        ensures
            r == (if self@.len() > 0 { Some(self@[0]) } else { None::<Keyframe> }),
    {
        if self.keyframes.len() > 0 {
            Some(self.keyframes[0])
        } else {
            None
        }
    }

    pub fn last_keyframe(&self) -> (r: Option<Keyframe>)
        ensures
            r == (if self@.len() > 0 { Some(self@.last()) } else { None::<Keyframe> }),
    {
        let n = self.keyframes.len();
        if n > 0 {
            Some(self.keyframes[n - 1])
        } else {
            None
        }
    }

    /// The last keyframe strictly before `time`.
    pub fn prev_keyframe(&self, time: usize) -> (r: Option<Keyframe>)
        requires
            self.wf(),
        ensures
            ({
                let i = num_before(self@, time as int) as int;
                r == (if i > 0 { Some(self@[i - 1]) } else { None::<Keyframe> })
            }),
    {
        let i = match self.keyframe_index(time) {
            Ok(i) => i,
            Err(i) => i,
        };
        if i > 0 {
            Some(self.keyframes[i - 1])
        } else {
            None
        }
    }

    /// The first keyframe strictly after `time`.
    pub fn next_keyframe(&self, time: usize) -> (r: Option<Keyframe>)
        requires
            self.wf(),
        ensures
            ({
                let i = num_before(self@, time + 1) as int;
                r == (if i < self@.len() { Some(self@[i]) } else { None::<Keyframe> })
            }),
    {
        proof {
            lemma_num_before_bounds(self@, time as int);
        }
        let n = self.keyframes.len();
        let i = match self.keyframe_index(time) {
            Ok(i) => {
                proof {
                    assert forall|j: int| i + 1 <= j < self@.len() implies self@[j].time >= time + 1 by {
                        assert(self@[i as int].time < self@[j].time);
                    }
                    lemma_num_before(self@, time + 1, i + 1);
                }
                i + 1
            },
            Err(i) => {
                proof {
                    assert forall|j: int| i <= j < self@.len() implies self@[j].time >= time + 1 by {
                        if j > i {
                            assert(self@[i as int].time < self@[j].time);
                        }
                    }
                    lemma_num_before(self@, time + 1, i as int);
                }
                i
            },
        };
        if i < n {
            Some(self.keyframes[i])
        } else {
            None
        }
    }

    pub fn dirty(&self) -> (r: usize)
        ensures
            r == self.dirty_frame(),
    {
        self.dirty
    }

    pub fn clear_dirty(&mut self)
        ensures
            final(self)@ == old(self)@,
            final(self).dirty_frame() == usize::MAX,
    {
        self.dirty = usize::MAX;
    }

    fn mark_dirty(&mut self, time: usize)
        requires
            old(self).wf(),
        ensures
            final(self)@ == old(self)@,
            final(self).dirty_frame() == min(
                old(self).dirty_frame(),
                affected_from(old(self)@, time as int),
            ),
    {
        let dirty_time = match self.prev_keyframe(time) {
            Some(k) => {
                if k.interpolation == Interpolation::Linear {
                    proof {
                        lemma_num_before_bounds(self@, time as int);
                    }
                    k.time + 1
                } else {
                    time
                }
            },
            None => time,
        };
        if dirty_time < self.dirty {
            self.dirty = dirty_time;
        }
    }

    /// Puts `keyframe` on the curve, replacing one at the same time.
    pub fn insert_keyframe(&mut self, keyframe: Keyframe)
        requires
            old(self).wf(),
        ensures
            final(self).wf(),
            final(self)@ == with_keyframe(old(self)@, keyframe),
            final(self).dirty_frame() == min(
                old(self).dirty_frame(),
                affected_from(old(self)@, keyframe.time as int),
            ),
            final(self).dirty_frame() <= keyframe.time,
    {
        proof {
            lemma_affected_from_le(self@, keyframe.time as int);
            lemma_with_keyframe(self@, keyframe);
        }
        self.mark_dirty(keyframe.time);
        let ghost ks = self@;
        match self.keyframe_index(keyframe.time) {
            Ok(i) => {
                self.keyframes.set(i, keyframe);
                proof {
                    assert(self@ == ks.update(i as int, keyframe));
                }
            },
            Err(i) => {
                self.keyframes.insert(i, keyframe);
                proof {
                    assert(self@ == ks.insert(i as int, keyframe));
                }
            },
        }
    }

    /// Takes the keyframe at `time` off the curve and returns it, if there is one.
    pub fn remove_keyframe(&mut self, time: usize) -> (r: Option<Keyframe>)
        requires
            old(self).wf(),
        ensures
            final(self).wf(),
            ({
                let i = num_before(old(self)@, time as int) as int;
                if i < old(self)@.len() && old(self)@[i].time == time {
                    &&& r == Some(old(self)@[i])
                    &&& final(self)@ == old(self)@.remove(i)
                    &&& final(self).dirty_frame() == min(
                        old(self).dirty_frame(),
                        affected_from(old(self)@, time as int),
                    )
                } else {
                    &&& r.is_none()
                    &&& final(self)@ == old(self)@
                    &&& final(self).dirty_frame() == old(self).dirty_frame()
                }
            }),
            r.is_some() ==> final(self).dirty_frame() <= time,
            r.is_some() == has_keyframe_at(old(self)@, time as int),
            final(self)@ == without_keyframe(old(self)@, time as int),
            final(self).dirty_frame() == if has_keyframe_at(old(self)@, time as int) {
                min(old(self).dirty_frame(), affected_from(old(self)@, time as int))
            } else {
                old(self).dirty_frame()
            },
    {
        proof {
            lemma_affected_from_le(self@, time as int);
        }
        match self.keyframe_index(time) {
            Ok(i) => {
                self.mark_dirty(time);
                let k = self.keyframes.remove(i);
                Some(k)
            },
            Err(_) => None,
        }
    }

    /// The keyframes that shape the curve on the frames `first..=last`: those inside, and the
    /// nearest one on either side.
    pub fn keyframes_affecting_range(&self, first: usize, last: usize) -> (r: Vec<Keyframe>)
        requires
            self.wf(),
            first <= last,
        ensures
            ({
                let s = num_before(self@, first as int) as int;
                let e = num_before(self@, last as int) as int + 1;
                let start = if s > 0 { s - 1 } else { 0 };
                let end = if e < self@.len() { e } else { self@.len() as int };
                r@ == self@.subrange(start, end)
            }),
    {
        proof {
            lemma_num_before_bounds(self@, first as int);
            lemma_num_before_bounds(self@, last as int);
            lemma_num_before_mono(self@, first as int, last as int);
        }
        let s = match self.keyframe_index(first) {
            Ok(i) => i,
            Err(i) => i,
        };
        let e = match self.keyframe_index(last) {
            Ok(i) => i,
            Err(i) => i,
        };
        let start = if s > 0 { s - 1 } else { 0 };
        let n = self.keyframes.len();
        let end = if e < n { e + 1 } else { n };
        let mut r: Vec<Keyframe> = Vec::new();
        let mut j = start;
        while j < end
            invariant
                start <= j <= end <= n == self@.len(),
                r@ == self@.subrange(start as int, j as int),
            decreases end - j,
        {
            r.push(self.keyframes[j]);
            j = j + 1;
            proof {
                assert(r@ == self@.subrange(start as int, j as int));
            }
        }
        r
    }

    /// The curve's value at `time`.
    pub fn eval(&self, time: usize) -> (r: isize)
        requires
            self.wf(),
        ensures
            r == self.value_at(time as int),
    {
        let n = self.keyframes.len();
        if n == 0 || time < self.keyframes[0].time {
            return 0;
        }
        let last = self.keyframes[n - 1];
        if time >= last.time {
            proof {
                lemma_value_after_last(self@, time as int);
            }
            return last.value;
        }
        match self.keyframe_index(time) {
            Ok(i) => {
                proof {
                    lemma_value_at_keyframe(self@, i as int);
                }
                self.keyframes[i].value
            },
            Err(i) => {
                proof {
                    lemma_num_before_bounds(self@, time as int);
                    assert(i > 0);
                    assert(i < n);
                    lemma_value_in_segment(self@, i - 1, time as int);
                }
                let a = self.keyframes[i - 1];
                let b = self.keyframes[i];
                match a.interpolation {
                    Interpolation::Hold => a.value,
                    Interpolation::Linear => interpolate(a, b, time),
                }
            },
        }
    }

    /// Collapses every run of equal-valued hold keyframes to its first keyframe.
    pub fn optimize(&mut self)
        requires
            old(self).wf(),
        ensures
            final(self).wf(),
            final(self)@ == collapsed(old(self)@),
            final(self).dirty_frame() == min(old(self).dirty_frame(), collapse_dirty(old(self)@)),
            forall|t: int| #[trigger] final(self).value_at(t) == old(self).value_at(t),
    {
        let ghost ks = self@;
        let n = self.keyframes.len();
        let mut kept: Vec<Keyframe> = Vec::new();
        let mut i: usize = 0;
        proof {
            assert(ks.subrange(0, 0) =~= Seq::<Keyframe>::empty());
        }
        while i < n
            invariant
                n == ks.len(),
                ks == self.keyframes@,
                sorted(ks),
                0 <= i <= n,
                kept@ == collapsed(ks.subrange(0, i as int)),
                self.dirty == min(old(self).dirty as int, collapse_dirty(ks.subrange(0, i as int))),
                sorted(kept@),
                forall|j: int| 0 <= j < kept@.len() ==> kept@[j].time < (if i < n { ks[i as int].time as int } else { usize::MAX as int + 1 }),
                kept@.len() <= i,
            decreases n - i,
        {
            let k = self.keyframes[i];
            let m = kept.len();
            let ghost pre = ks.subrange(0, i as int);
            proof {
                assert(ks.subrange(0, i + 1).drop_last() =~= pre);
                assert(ks.subrange(0, i + 1).last() == k);
            }
            if m > 0 && kept[m - 1].interpolation == Interpolation::Hold && k.interpolation
                == Interpolation::Hold && kept[m - 1].value == k.value {
                if k.time < self.dirty {
                    self.dirty = k.time;
                }
            } else {
                kept.push(k);
            }
            i = i + 1;
            proof {
                if i < n {
                    assert(ks[i - 1].time < ks[i as int].time);
                }
            }
        }
        proof {
            assert(ks.subrange(0, n as int) =~= ks);
            assert forall|t: int| #[trigger] curve_value(kept@, t) == curve_value(ks, t) by {
                lemma_optimize_keeps_values(ks, t);
            }
        }
        self.keyframes = kept;
    }
}

/// The value of the linear segment from `a` to `b` strictly inside it, rounded to nearest.
fn interpolate(a: Keyframe, b: Keyframe, t: usize) -> (r: isize)
    requires
        a.time < t < b.time,
        a.interpolation == Interpolation::Linear,
    ensures
        r == segment_value(a, b, t as int),
{
    let dt: usize = b.time - a.time;
    let tt: usize = t - a.time;
    let half: u128 = (dt / 2) as u128;
    let dt128: u128 = dt as u128;
    let tt128: u128 = tt as u128;
    proof {
        assert(tt < dt);
        assert(half < dt);
    }
    if a.value <= b.value {
        let d: u128 = (b.value as i128 - a.value as i128) as u128;
        proof {
            assert(d * tt128 <= 0xffff_ffff_ffff_ffff * 0xffff_ffff_ffff_ffff) by (nonlinear_arith)
                requires
                    d <= 0xffff_ffff_ffff_ffff,
                    tt128 <= 0xffff_ffff_ffff_ffff,
            ;
        }
        let n: u128 = d * tt128 + half;
        let q: u128 = n / dt128;
        proof {
            assert(n < (d + 1) * dt128) by (nonlinear_arith)
                requires
                    n == d * tt128 + half,
                    tt128 + 1 <= dt128,
                    half < dt128,
            ;
            assert(q <= d) by (nonlinear_arith)
                requires
                    q == n / dt128,
                    n < (d + 1) * dt128,
                    dt128 > 0,
            ;
        }
        proof {
            let num = (b.value - a.value) * (t - a.time) + dt / 2;
            assert(num == n as int) by {
                assert(b.value - a.value == d as int);
                assert(t - a.time == tt128 as int);
            }
            assert(div_trunc(num, dt as int) == q as int);
        }
        (a.value as i128 + q as i128) as isize
    } else {
        let d: u128 = (a.value as i128 - b.value as i128) as u128;
        proof {
            assert(d * tt128 <= 0xffff_ffff_ffff_ffff * 0xffff_ffff_ffff_ffff) by (nonlinear_arith)
                requires
                    d <= 0xffff_ffff_ffff_ffff,
                    tt128 <= 0xffff_ffff_ffff_ffff,
            ;
        }
        let p: u128 = d * tt128;
        if p >= half {
            let q: u128 = (p - half) / dt128;
            proof {
                assert(q <= d) by (nonlinear_arith)
                    requires
                        q == (p - half) as int / dt128 as int,
                        p == d * tt128,
                        tt128 < dt128,
                ;
            }
            proof {
                let num = (b.value - a.value) * (t - a.time) + dt / 2;
                assert(num == -((p - half) as int)) by {
                    assert(b.value - a.value == -(d as int));
                    assert(t - a.time == tt128 as int);
                    assert((-(d as int)) * (tt128 as int) == -((d * tt128) as int)) by (nonlinear_arith);
                }
                assert(div_trunc(num, dt as int) == -(q as int));
            }
            (a.value as i128 - q as i128) as isize
        } else {
            let q: u128 = (half - p) / dt128;
            proof {
                assert(q == 0) by (nonlinear_arith)
                    requires
                        q == (half - p) as int / dt128 as int,
                        half < dt128,
                        p >= 0,
                ;
            }
            proof {
                let num = (b.value - a.value) * (t - a.time) + dt / 2;
                assert(num == (half - p) as int) by {
                    assert(b.value - a.value == -(d as int));
                    assert(t - a.time == tt128 as int);
                    assert((-(d as int)) * (tt128 as int) == -((d * tt128) as int)) by (nonlinear_arith);
                }
                assert(div_trunc(num, dt as int) == 0);
            }
            a.value
        }
    }
}

proof fn lemma_affected_from_le(ks: Seq<Keyframe>, t: int)
    requires
        sorted(ks),
    ensures
        affected_from(ks, t) <= t,
{
    lemma_num_before_bounds(ks, t);
}

proof fn lemma_num_before_mono(ks: Seq<Keyframe>, a: int, b: int)
    requires
        sorted(ks),
        a <= b,
    ensures
        num_before(ks, a) <= num_before(ks, b),
{
    lemma_num_before_bounds(ks, a);
    lemma_num_before_bounds(ks, b);
    if num_before(ks, a) > num_before(ks, b) {
        let j = num_before(ks, b) as int;
        assert(ks[j].time < a);
        assert(ks[j].time >= b);
    }
}

} // verus!
