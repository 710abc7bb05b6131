use neoutl::keyframes::{Keyframe, KeyframeTracks, TimeRemap};

/// Stand-in for the host's keyframe apply mode; `Normal` is its default.
#[derive(Clone, Copy, Debug, PartialEq)]
enum Mode {
    Normal,
    Additive,
}

fn frames(t: &KeyframeTracks<f32, Mode>, key: &str) -> Vec<(i32, f32)> {
    match t.track(key) {
        Some(v) => v.iter().map(|k| (k.frame, k.value)).collect(),
        None => Vec::new(),
    }
}

fn set(t: &mut KeyframeTracks<f32, Mode>, key: &str, frame: i32, value: f32) {
    t.set_keyframe(key, frame, value, "linear".to_string(), Vec::new(), 0, Mode::Normal);
}

#[test]
fn set_keeps_frame_order_and_replaces() {
    let mut t = KeyframeTracks::new();
    set(&mut t, "x", 30, 3.0);
    set(&mut t, "x", 10, 1.0);
    set(&mut t, "x", 20, 2.0);
    set(&mut t, "x", 20, 2.5);
    assert_eq!(frames(&t, "x"), vec![(10, 1.0), (20, 2.5), (30, 3.0)]);
    assert!(t.track("y").is_none());
}

#[test]
fn remove_drops_empty_tracks() {
    let mut t = KeyframeTracks::new();
    set(&mut t, "x", 10, 1.0);
    set(&mut t, "x", 20, 2.0);
    t.remove_keyframe("x", 10);
    assert_eq!(frames(&t, "x"), vec![(20, 2.0)]);
    t.remove_keyframe("x", 99);
    assert_eq!(frames(&t, "x"), vec![(20, 2.0)]);
    t.remove_keyframe("x", 20);
    assert!(t.track("x").is_none());
    t.remove_keyframe("nope", 1);
}

#[test]
fn move_keyframe_rules_and_roundtrip() {
    let mut t = KeyframeTracks::new();
    set(&mut t, "x", 10, 1.0);
    set(&mut t, "x", 20, 2.0);
    assert!(!t.move_keyframe("y", 10, 15));
    assert!(!t.move_keyframe("x", 10, 20));
    assert!(!t.move_keyframe("x", 11, 15));
    assert!(t.move_keyframe("x", 10, 10));
    assert!(t.move_keyframe("x", 10, 25));
    assert_eq!(frames(&t, "x"), vec![(20, 2.0), (25, 1.0)]);
    assert!(t.move_keyframe("x", 25, 10));
    assert_eq!(frames(&t, "x"), vec![(10, 1.0), (20, 2.0)]);
}

#[test]
fn shift_and_back() {
    let mut t = KeyframeTracks::new();
    set(&mut t, "x", 10, 1.0);
    set(&mut t, "y", -5, 2.0);
    t.shift(7);
    assert_eq!(frames(&t, "x"), vec![(17, 1.0)]);
    assert_eq!(frames(&t, "y"), vec![(2, 2.0)]);
    t.shift(-7);
    assert_eq!(frames(&t, "x"), vec![(10, 1.0)]);
    assert_eq!(frames(&t, "y"), vec![(-5, 2.0)]);
    t.clamp_to_range(0, 100, 10, 20);
    assert_eq!(frames(&t, "x"), vec![(10, 1.0)]);
}

#[test]
fn split_partitions_tracks() {
    let mut t = KeyframeTracks::new();
    set(&mut t, "x", 0, 0.0);
    set(&mut t, "x", 10, 1.0);
    set(&mut t, "x", 20, 2.0);
    set(&mut t, "y", 30, 3.0);
    let second = t.split_at(10);
    assert_eq!(frames(&t, "x"), vec![(0, 0.0)]);
    assert!(t.track("y").is_none());
    assert_eq!(frames(&second, "x"), vec![(20, 2.0)]);
    assert_eq!(frames(&second, "y"), vec![(30, 3.0)]);
}

#[test]
fn time_remap_keys_and_resolve() {
    let mut r = TimeRemap::new();
    assert_eq!(r.resolve(12, Some(99)), 12);
    r.set_key(10, 100, "linear".to_string(), 1, Mode::Normal);
    r.set_key(0, 0, "linear".to_string(), 2, Mode::Normal);
    let ks: Vec<(i32, i32)> = r.keyframes.iter().map(|k: &Keyframe<i32, Mode>| (k.frame, k.value)).collect();
    assert_eq!(ks, vec![(0, 0), (10, 100)]);
    r.keyframes[1].engine_payload = vec![9];
    r.set_key(10, 50, "ease".to_string(), 3, Mode::Normal);
    assert_eq!(r.keyframes[1].value, 50);
    assert_eq!(r.keyframes[1].engine_id, "ease");
    assert_eq!(r.keyframes[1].engine_payload, vec![9]);
    assert_eq!(r.resolve(12, Some(99)), 99);
    assert_eq!(r.resolve(12, None), 12);
    r.freeze_frame = Some(4);
    assert_eq!(r.resolve(12, Some(99)), 4);
    r.remove_key(0);
    assert_eq!(r.keyframes.len(), 1);
    assert_eq!(r.keyframes[0].frame, 10);
}

#[test]
fn set_then_remove_gives_back_the_tracks() {
    let mut t = KeyframeTracks::new();
    set(&mut t, "x", 10, 1.0);
    set(&mut t, "x", 30, 3.0);
    set(&mut t, "x", 20, 2.0);
    t.remove_keyframe("x", 20);
    assert_eq!(frames(&t, "x"), vec![(10, 1.0), (30, 3.0)]);
    set(&mut t, "y", 5, 0.5);
    t.remove_keyframe("y", 5);
    assert!(t.track("y").is_none());
}

#[test]
fn remap_set_then_remove_gives_back_the_curve() {
    let mut r = TimeRemap::new();
    r.set_key(0, 0, "linear".to_string(), 1, Mode::Normal);
    r.set_key(20, 40, "linear".to_string(), 2, Mode::Normal);
    r.set_key(10, 15, "linear".to_string(), 3, Mode::Normal);
    r.remove_key(10);
    let ks: Vec<(i32, i32)> = r.keyframes.iter().map(|k| (k.frame, k.value)).collect();
    assert_eq!(ks, vec![(0, 0), (20, 40)]);
}

#[test]
fn new_keys_take_the_given_mode_and_updates_keep_theirs() {
    let mut t: KeyframeTracks<f32, Mode> = KeyframeTracks::new();
    t.set_keyframe("x", 10, 1.0, "linear".to_string(), Vec::new(), 1, Mode::Additive);
    t.set_keyframe("x", 10, 2.0, "ease".to_string(), vec![7], 2, Mode::Normal);
    t.set_keyframe("x", 20, 3.0, "linear".to_string(), Vec::new(), 3, Mode::Normal);
    let modes: Vec<(i32, f32, Mode)> = t.track("x").unwrap().iter().map(|k| (k.frame, k.value, k.apply_mode)).collect();
    assert_eq!(modes, vec![(10, 2.0, Mode::Additive), (20, 3.0, Mode::Normal)]);
    let mut r: TimeRemap<Mode> = TimeRemap::new();
    r.set_key(0, 0, "linear".to_string(), 1, Mode::Additive);
    r.set_key(0, 5, "linear".to_string(), 2, Mode::Normal);
    assert_eq!(r.keyframes[0].apply_mode, Mode::Additive);
    assert_eq!(r.keyframes[0].value, 5);
}
