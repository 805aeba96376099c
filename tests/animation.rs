use tasjr::animation::{Curve, Interpolation, Keyframe};

fn curve_of(keys: &[(usize, isize, Interpolation)]) -> Curve {
    let mut c = Curve::default();
    for &(t, v, i) in keys {
        c.insert_keyframe(Keyframe::new(t, v, i));
    }
    c
}

#[test]
fn single_hold_keyframe_laws() {
    let c = curve_of(&[(10, 42, Interpolation::Hold)]);
    assert_eq!(c.eval(9), 0);
    assert_eq!(c.eval(10), 42);
    assert_eq!(c.eval(1000), 42);
}

#[test]
fn two_hold_keyframes_hold_value() {
    let c = curve_of(&[(0, 0, Interpolation::Hold), (100, 100, Interpolation::Hold)]);
    assert_eq!(c.eval(50), 0);
}

#[test]
fn two_linear_keyframes_interpolate() {
    let c = curve_of(&[(0, 0, Interpolation::Linear), (100, 100, Interpolation::Linear)]);
    assert_eq!(c.eval(50), 50);
    assert_eq!(c.eval(0), 0);
    assert_eq!(c.eval(100), 100);
}

#[test]
fn linear_rounds_to_nearest_and_toward_zero() {
    let c = curve_of(&[(0, 0, Interpolation::Linear), (3, 1, Interpolation::Hold)]);
    assert_eq!(c.eval(1), 0);
    assert_eq!(c.eval(2), 1);
    let d = curve_of(&[(0, 0, Interpolation::Linear), (4, -10, Interpolation::Hold)]);
    assert_eq!(d.eval(1), -2);
    assert_eq!(d.eval(2), -4);
    assert_eq!(d.eval(3), -7);
}

#[test]
fn linear_extreme_values_do_not_overflow() {
    let c = curve_of(&[
        (0, isize::MIN, Interpolation::Linear),
        (usize::MAX, isize::MAX, Interpolation::Hold),
    ]);
    assert_eq!(c.eval(0), isize::MIN);
    assert_eq!(c.eval(usize::MAX), isize::MAX);
    let mid = c.eval(usize::MAX / 2);
    assert!(mid >= -1 && mid <= 1);
}

#[test]
fn empty_curve_is_zero() {
    let c = Curve::default();
    assert_eq!(c.eval(0), 0);
    assert_eq!(c.eval(12345), 0);
    assert!(c.first_keyframe().is_none());
    assert!(c.last_keyframe().is_none());
}

#[test]
fn insert_replaces_equal_time() {
    let mut c = curve_of(&[(5, 1, Interpolation::Hold)]);
    c.insert_keyframe(Keyframe::new(5, 7, Interpolation::Linear));
    let k = c.keyframe(5).unwrap();
    assert_eq!(k.value, 7);
    assert_eq!(k.interpolation, Interpolation::Linear);
    assert_eq!(c.keyframes_affecting_range(0, 100).len(), 1);
}

#[test]
fn prev_and_next_keyframes() {
    let c = curve_of(&[
        (10, 1, Interpolation::Hold),
        (20, 2, Interpolation::Hold),
        (30, 3, Interpolation::Hold),
    ]);
    assert_eq!(c.prev_keyframe(20).unwrap().time, 10);
    assert_eq!(c.next_keyframe(20).unwrap().time, 30);
    assert_eq!(c.prev_keyframe(25).unwrap().time, 20);
    assert_eq!(c.next_keyframe(25).unwrap().time, 30);
    assert!(c.prev_keyframe(10).is_none());
    assert!(c.next_keyframe(30).is_none());
    assert_eq!(c.first_keyframe().unwrap().time, 10);
    assert_eq!(c.last_keyframe().unwrap().time, 30);
}

#[test]
fn remove_keyframe_returns_it() {
    let mut c = curve_of(&[(10, 1, Interpolation::Hold), (20, 2, Interpolation::Hold)]);
    c.clear_dirty();
    assert!(c.remove_keyframe(15).is_none());
    assert_eq!(c.dirty(), usize::MAX);
    let k = c.remove_keyframe(20).unwrap();
    assert_eq!(k.value, 2);
    assert_eq!(c.dirty(), 20);
    assert!(c.keyframe(20).is_none());
    assert_eq!(c.eval(25), 1);
}

#[test]
fn dirty_follows_linear_segment_start() {
    let mut c = curve_of(&[(10, 0, Interpolation::Linear), (20, 10, Interpolation::Hold)]);
    c.clear_dirty();
    assert_eq!(c.dirty(), usize::MAX);
    c.insert_keyframe(Keyframe::new(20, 30, Interpolation::Hold));
    assert_eq!(c.dirty(), 11);
    c.clear_dirty();
    c.insert_keyframe(Keyframe::new(5, 1, Interpolation::Hold));
    assert_eq!(c.dirty(), 5);
}

#[test]
fn keyframe_mut_edits_in_place() {
    let mut c = curve_of(&[(0, 0, Interpolation::Hold), (10, 10, Interpolation::Hold)]);
    c.clear_dirty();
    if let Some(k) = c.keyframe_mut(0) {
        k.interpolation = Interpolation::Linear;
    }
    assert_eq!(c.eval(5), 5);
    assert_eq!(c.dirty(), 0);
    assert!(c.keyframe_mut(3).is_none());
}

#[test]
fn affecting_range_includes_neighbours() {
    let c = curve_of(&[
        (0, 0, Interpolation::Hold),
        (10, 1, Interpolation::Hold),
        (20, 2, Interpolation::Hold),
        (30, 3, Interpolation::Hold),
        (40, 4, Interpolation::Hold),
    ]);
    let ks: Vec<usize> = c.keyframes_affecting_range(12, 28).iter().map(|k| k.time).collect();
    assert_eq!(ks, vec![10, 20, 30]);
    let all: Vec<usize> = c.keyframes_affecting_range(0, 40).iter().map(|k| k.time).collect();
    assert_eq!(all, vec![0, 10, 20, 30, 40]);
}

#[test]
fn optimize_collapses_equal_holds() {
    let mut c = curve_of(&[
        (0, 5, Interpolation::Hold),
        (1, 5, Interpolation::Hold),
        (2, 5, Interpolation::Hold),
        (3, 6, Interpolation::Hold),
        (4, 6, Interpolation::Linear),
        (5, 6, Interpolation::Hold),
    ]);
    c.clear_dirty();
    let before: Vec<isize> = (0..8).map(|t| c.eval(t)).collect();
    c.optimize();
    let times: Vec<usize> = c.keyframes_affecting_range(0, 5).iter().map(|k| k.time).collect();
    assert_eq!(times, vec![0, 3, 4, 5]);
    let after: Vec<isize> = (0..8).map(|t| c.eval(t)).collect();
    assert_eq!(before, after);
    assert_eq!(c.dirty(), 1);
}
