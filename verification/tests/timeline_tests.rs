use neoutl::timeline::{
    clamp_layer, clip_layer_span, compose_plan, creates_parent_cycle, parent_of, ControllerRole, is_active_at, moved_range, parent_allowed, paste_placements,
    reorder_effect, resized_range, ripple_followers, set_parent, timeline_row, KindId, Layer, snap_candidates, snap_magnetic, split_range, split_trim_in, total_frames,
    Placement, SceneId, TimeRange,
};

fn p(id: usize, start: i32, end: i32, layer: i32, scene: i32) -> Placement {
    Placement { id, start_frame: start, end_frame: end, layer, scene }
}

#[test]
fn frame_range_is_half_open() {
    let r = TimeRange { start_frame: 10, end_frame: 20 };
    assert!(!is_active_at(&r, &SceneId(0), 0, 9));
    assert!(is_active_at(&r, &SceneId(0), 0, 10));
    assert!(is_active_at(&r, &SceneId(0), 0, 19));
    assert!(!is_active_at(&r, &SceneId(0), 0, 20));
    assert!(!is_active_at(&r, &SceneId(1), 0, 15));
}

#[test]
fn total_frames_has_a_floor() {
    assert_eq!(total_frames(&[]), 300);
    assert_eq!(total_frames(&[TimeRange { start_frame: 0, end_frame: 120 }]), 300);
    assert_eq!(
        total_frames(&[TimeRange { start_frame: 0, end_frame: 500 }, TimeRange { start_frame: 5, end_frame: 301 }]),
        500
    );
}

#[test]
fn snapping() {
    let objs = vec![p(1, 0, 30, 0, 0), p(2, 40, 60, 0, 0), p(3, 100, 130, 1, 0), p(4, 70, 80, 0, 1)];
    let cands = snap_candidates(&objs, 55, 0, 0, 1);
    assert_eq!(cands, vec![55, 40, 60]);
    assert_eq!(snap_magnetic(43, 43, true, 5, &cands), 40);
    assert_eq!(snap_magnetic(43, 45, true, 5, &cands), 45);
    assert_eq!(snap_magnetic(43, 43, false, 5, &cands), 43);
    assert_eq!(snap_magnetic(48, 48, true, 5, &cands), 48);
    assert_eq!(snap_magnetic(57, 57, true, 5, &cands), 55);
}

#[test]
fn move_resize_and_layers() {
    let (r, d) = moved_range(TimeRange { start_frame: 10, end_frame: 25 }, 40);
    assert_eq!(r, TimeRange { start_frame: 40, end_frame: 55 });
    assert_eq!(d, 30);
    assert_eq!(resized_range(-5, 10), TimeRange { start_frame: 0, end_frame: 10 });
    assert_eq!(resized_range(8, 3), TimeRange { start_frame: 8, end_frame: 9 });
    assert_eq!(clamp_layer(-3), 0);
    assert_eq!(clamp_layer(4), 4);
    assert_eq!(clip_layer_span(2, 5), (3, 0));
    assert_eq!(clip_layer_span(5, 2), (0, 3));
}

#[test]
fn ripple_followers_on_same_layer() {
    let objs = vec![p(1, 0, 30, 0, 0), p(2, 40, 60, 0, 0), p(3, 100, 130, 1, 0), p(4, 30, 35, 0, 0)];
    assert_eq!(ripple_followers(&objs, 1, 0, 30), vec![(2, 40), (4, 30)]);
}

#[test]
fn parent_cycles() {
    let links = vec![(2usize, 1usize), (3, 2)];
    assert!(creates_parent_cycle(&links, 1, 3));
    assert!(!creates_parent_cycle(&links, 3, 1));
    assert!(!parent_allowed(&links, 4, 4));
    assert!(parent_allowed(&links, 4, 3));
    assert!(!parent_allowed(&links, 1, 2));
}

#[test]
fn set_parent_sets_replaces_and_removes() {
    let objects = vec![1usize, 2, 3, 4];
    let mut links: Vec<(usize, usize)> = vec![(2, 1), (3, 2)];
    set_parent(&mut links, &objects, 4, Some(3));
    assert_eq!(links, vec![(2, 1), (3, 2), (4, 3)]);
    set_parent(&mut links, &objects, 3, Some(1));
    assert_eq!(links, vec![(2, 1), (4, 3), (3, 1)]);
    set_parent(&mut links, &objects, 2, None);
    assert_eq!(links, vec![(4, 3), (3, 1)]);
    assert_eq!(parent_of(&links, 3), Some(1));
    assert_eq!(parent_of(&links, 2), None);
}

#[test]
fn set_parent_refuses_self_cycles_and_unknown_objects() {
    let objects = vec![1usize, 2, 3];
    let mut links: Vec<(usize, usize)> = vec![(2, 1), (3, 2)];
    set_parent(&mut links, &objects, 1, Some(1));
    assert_eq!(links, vec![(2, 1), (3, 2)]);
    set_parent(&mut links, &objects, 1, Some(3));
    assert_eq!(links, vec![(2, 1), (3, 2)]);
    set_parent(&mut links, &objects, 9, Some(1));
    assert_eq!(links, vec![(2, 1), (3, 2)]);
    set_parent(&mut links, &objects, 9, None);
    assert_eq!(links, vec![(2, 1), (3, 2)]);
}

#[test]
fn set_parent_keeps_every_chain_ending() {
    let objects = vec![1usize, 2, 3, 4, 5];
    let mut links: Vec<(usize, usize)> = vec![(2, 1), (3, 2), (5, 4)];
    for (o, new_parent) in [(1, Some(3)), (4, Some(3)), (1, Some(5)), (2, None), (1, Some(2)), (2, Some(1))] {
        set_parent(&mut links, &objects, o, new_parent);
        for start in 1..=5usize {
            let mut cur = start;
            let mut steps = 0;
            while let Some(&(_, parent)) = links.iter().find(|l| l.0 == cur) {
                cur = parent;
                steps += 1;
                assert!(steps <= objects.len(), "chain from {} does not end", start);
            }
        }
    }
}

#[test]
fn paste_keeps_relative_layout() {
    let docs = vec![p(1, 50, 60, 3, 0), p(2, 40, 45, 2, 0)];
    assert_eq!(paste_placements(&docs, 100, 0), vec![(110, 120, 1), (100, 105, 0)]);
    assert_eq!(paste_placements(&docs, -30, -1), vec![(0, 10, 0), (0, 5, 0)]);
}

#[test]
fn split_ranges() {
    let r = TimeRange { start_frame: 10, end_frame: 20 };
    assert_eq!(
        split_range(r, 15),
        Some((TimeRange { start_frame: 10, end_frame: 15 }, TimeRange { start_frame: 15, end_frame: 20 }))
    );
    assert_eq!(split_range(r, 10), None);
    assert_eq!(split_range(r, 20), None);
    assert_eq!(split_trim_in(100, 10, 15), 105);
}

#[test]
fn effects_reorder_within_bounds() {
    let mut v = vec!["a", "b", "c", "d"];
    reorder_effect(&mut v, 0, 2);
    assert_eq!(v, vec!["b", "c", "a", "d"]);
    reorder_effect(&mut v, 3, 0);
    assert_eq!(v, vec!["d", "b", "c", "a"]);
    reorder_effect(&mut v, 1, 4);
    assert_eq!(v, vec!["d", "b", "c", "a"]);
}

#[test]
fn timeline_rows() {
    let r = timeline_row(
        7,
        TimeRange { start_frame: 3, end_frame: 9 },
        KindId(2),
        Layer(4),
        Some(("clip.mp4".to_string(), 12)),
        Some((1, 2)),
        Some((false, 5, 6)),
    );
    assert_eq!((r.id, r.start_frame, r.end_frame, r.kind, r.layer), (7, 3, 9, 2, 4));
    assert_eq!(r.media_path.as_deref(), Some("clip.mp4"));
    assert_eq!(r.media_trim_in_frame, 12);
    assert_eq!((r.group_layer_count_down, r.group_layer_count_up), (1, 2));
    assert_eq!((r.clip_layer_count_down, r.clip_layer_count_up), (0, 0));
    let r = timeline_row(1, TimeRange { start_frame: 0, end_frame: 1 }, KindId(0), Layer(0), None, None, Some((true, 5, 6)));
    assert_eq!(r.media_path, None);
    assert_eq!((r.clip_layer_count_down, r.clip_layer_count_up), (5, 6));
}

#[test]
fn compose_plan_without_framebuffer_group() {
    let roles = vec![
        ControllerRole::Group { generate_framebuffer: false, hide_captured: true },
        ControllerRole::Clip,
        ControllerRole::Clip,
    ];
    let plan = compose_plan(&[0, 2, 1], &roles);
    assert_eq!(plan.clip, Some(2));
    assert!(plan.capture.is_none());
    assert_eq!(plan.shown_chain, Some(vec![0, 2, 1]));
    let plan = compose_plan(&[], &roles);
    assert_eq!(plan.clip, None);
    assert!(plan.capture.is_none());
    assert_eq!(plan.shown_chain, Some(vec![]));
}

#[test]
fn compose_plan_with_framebuffer_group() {
    let roles = vec![
        ControllerRole::Group { generate_framebuffer: true, hide_captured: false },
        ControllerRole::Clip,
        ControllerRole::Group { generate_framebuffer: false, hide_captured: false },
        ControllerRole::Group { generate_framebuffer: true, hide_captured: true },
    ];
    let plan = compose_plan(&[2, 0, 1, 3], &roles);
    assert_eq!(plan.clip, Some(1));
    let cap = plan.capture.unwrap();
    assert_eq!(cap.controller, 0);
    assert_eq!(cap.inner_chain, vec![2]);
    assert_eq!(cap.inner_clip, None);
    assert_eq!(plan.shown_chain, Some(vec![2, 1, 3]));

    let plan = compose_plan(&[1, 2, 3, 0], &roles);
    assert_eq!(plan.clip, Some(1));
    let cap = plan.capture.unwrap();
    assert_eq!(cap.controller, 3);
    assert_eq!(cap.inner_chain, vec![1, 2]);
    assert_eq!(cap.inner_clip, Some(1));
    assert_eq!(plan.shown_chain, None);
}
