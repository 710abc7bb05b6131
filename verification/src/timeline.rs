//! Timeline arithmetic: when objects are active, snapping, moving,
//! resizing, rippling, pasting and splitting time ranges, and parent links.
use vstd::prelude::*;

verus! {

/// Frames `[start_frame, end_frame)` during which an object is shown.
#[derive(Clone, Copy, Debug, PartialEq, Eq, Structural)]
pub struct TimeRange {
    pub start_frame: i32,
    pub end_frame: i32,
}

/// Identifier of a timeline object.
#[derive(Clone, Copy, Debug, PartialEq, Eq, Structural)]
pub struct ObjectId(pub usize);

/// Plugin kind of a timeline object.
#[derive(Clone, Copy, Debug, PartialEq, Eq, Structural)]
pub struct KindId(pub u32);

/// Timeline layer of an object (0 is the top row).
#[derive(Clone, Copy, Debug, PartialEq, Eq, Structural)]
pub struct Layer(pub i32);

/// Scene an object belongs to.
#[derive(Clone, Copy, Debug, PartialEq, Eq, Structural)]
pub struct SceneId(pub i32);

/// The object another object is attached to.
#[derive(Clone, Copy, Debug, PartialEq, Eq, Structural)]
pub struct ParentRef(pub usize);

/// An object that shows another scene.
#[derive(Clone, Copy, Debug, PartialEq, Eq, Structural)]
pub struct SceneObject {
    pub target_scene: i32,
}

/// Placement of one object on the timeline.
#[derive(Clone, Copy, Debug, PartialEq, Eq, Structural)]
pub struct Placement {
    pub id: usize,
    pub start_frame: i32,
    pub end_frame: i32,
    pub layer: i32,
    pub scene: i32,
}

/// What the timeline shows of one object.
pub struct TimelineData {
    pub id: i32,
    pub start_frame: i32,
    pub end_frame: i32,
    pub kind: i32,
    pub layer: i32,
    pub media_path: Option<String>,
    pub media_trim_in_frame: i64,
    pub group_layer_count_down: i32,
    pub group_layer_count_up: i32,
    pub clip_layer_count_down: i32,
    pub clip_layer_count_up: i32,
}

/// Whether an object of `scene` with `range` is shown at `frame` of
/// `active_scene`.
pub open spec fn active_at(range: TimeRange, scene: SceneId, active_scene: i32, frame: i32) -> bool {
    scene.0 == active_scene && range.start_frame <= frame && frame < range.end_frame
}

/// Whether an object is shown at `frame` of `active_scene`.
pub fn is_active_at(range: &TimeRange, scene: &SceneId, active_scene: i32, frame: i32) -> (r: bool)
    ensures
        r == active_at(*range, *scene, active_scene, frame),
{
    scene.0 == active_scene && frame >= range.start_frame && frame < range.end_frame
}

/// Smallest length of the timeline, in frames.
pub const MIN_TOTAL_FRAMES: i32 = 300;

/// Largest end frame, or 0 for no ranges.
pub open spec fn max_end(ends: Seq<i32>) -> int
    decreases ends.len(),
{
    if ends.len() == 0 {
        0
    } else {
        let m = max_end(ends.drop_last());
        if ends.last() > m {
            ends.last() as int
        } else {
            m
        }
    }
}

/// The largest end is at least every end, and is 0 or one of the ends.
pub proof fn lemma_max_end_bounds(ends: Seq<i32>)
    ensures
        max_end(ends) >= 0,
        forall|i: int| 0 <= i < ends.len() ==> max_end(ends) >= #[trigger] ends[i],
        max_end(ends) == 0 || exists|i: int| 0 <= i < ends.len() && max_end(ends) == ends[i],
    decreases ends.len(),
{
    if ends.len() > 0 {
        let d = ends.drop_last();
        lemma_max_end_bounds(d);
        assert forall|i: int| 0 <= i < ends.len() implies max_end(ends) >= #[trigger] ends[i] by {
            if i < d.len() {
                assert(ends[i] == d[i]);
            }
        }
        if max_end(ends) != 0 {
            if ends.last() > max_end(d) {
                assert(max_end(ends) == ends[ends.len() - 1]);
            } else {
                let j = choose|j: int| 0 <= j < d.len() && max_end(d) == d[j];
                assert(ends[j] == d[j]);
            }
        }
    }
}

/// The timeline is long enough for every range and never shorter than
/// `MIN_TOTAL_FRAMES`, and its length is that minimum or the end of one of
/// the ranges.
pub proof fn law_total_frames_covers_ranges(ranges: Seq<TimeRange>)
    ensures
        ({
            let ends = ranges.map_values(|t: TimeRange| t.end_frame);
            let total = if max_end(ends) > MIN_TOTAL_FRAMES { max_end(ends) } else { MIN_TOTAL_FRAMES as int };
            &&& total >= MIN_TOTAL_FRAMES
            &&& forall|i: int| 0 <= i < ranges.len() ==> total >= #[trigger] ranges[i].end_frame
            &&& (total == MIN_TOTAL_FRAMES || exists|i: int| 0 <= i < ranges.len() && total == ranges[i].end_frame)
        }),
{
    let ends = ranges.map_values(|t: TimeRange| t.end_frame);
    lemma_max_end_bounds(ends);
    assert forall|i: int| 0 <= i < ranges.len() implies ends[i] == #[trigger] ranges[i].end_frame by {}
    let total = if max_end(ends) > MIN_TOTAL_FRAMES { max_end(ends) } else { MIN_TOTAL_FRAMES as int };
    if total != MIN_TOTAL_FRAMES {
        let j = choose|j: int| 0 <= j < ends.len() && max_end(ends) == ends[j];
        assert(ranges[j].end_frame == ends[j]);
    }
}

/// Length of the timeline: the largest end frame, but at least
/// `MIN_TOTAL_FRAMES`.
pub fn total_frames(ranges: &[TimeRange]) -> (r: i32)
    ensures
        r == if max_end(ranges@.map_values(|t: TimeRange| t.end_frame)) > MIN_TOTAL_FRAMES {
            max_end(ranges@.map_values(|t: TimeRange| t.end_frame))
        } else {
            MIN_TOTAL_FRAMES as int
        },
        r >= MIN_TOTAL_FRAMES,
        forall|i: int| 0 <= i < ranges@.len() ==> r >= #[trigger] ranges@[i].end_frame,
        r == MIN_TOTAL_FRAMES || exists|i: int| 0 <= i < ranges@.len() && r == ranges@[i].end_frame,
{
    proof {
        law_total_frames_covers_ranges(ranges@);
    }
    let ghost ends = ranges@.map_values(|t: TimeRange| t.end_frame);
    let mut m: i32 = 0;
    let mut i: usize = 0;
    let mut any = false;
    while i < ranges.len()
        invariant
            i <= ranges.len(),
            ends == ranges@.map_values(|t: TimeRange| t.end_frame),
            m == max_end(ends.take(i as int)),
        decreases ranges.len() - i,
    {
        assert(ends.take(i + 1).drop_last() =~= ends.take(i as int));
        assert(ends.take(i + 1).last() == ranges@[i as int].end_frame);
        if ranges[i].end_frame > m {
            m = ranges[i].end_frame;
        }
        i += 1;
    }
    assert(ends.take(i as int) =~= ends);
    if m > MIN_TOTAL_FRAMES {
        m
    } else {
        MIN_TOTAL_FRAMES
    }
}

/// Absolute distance between two frames.
pub open spec fn dist(a: i32, b: i32) -> int {
    if a >= b {
        a - b
    } else {
        b - a
    }
}

/// Among `cands`, the first one closest to `frame` within `range`, or
/// `frame` when none is that close.
pub open spec fn nearest_within(cands: Seq<i32>, frame: i32, range: i32) -> i32
    decreases cands.len(),
{
    if cands.len() == 0 {
        frame
    } else {
        let rest = nearest_within(cands.drop_last(), frame, range);
        let c = cands.last();
        if dist(c, frame) <= range && (rest == frame && !within_any(cands.drop_last(), frame, range)
            || dist(c, frame) < dist(rest, frame)) {
            c
        } else {
            rest
        }
    }
}

/// Whether some candidate lies within `range` of `frame`.
pub open spec fn within_any(cands: Seq<i32>, frame: i32, range: i32) -> bool {
    exists|i: int| 0 <= i < cands.len() && dist(#[trigger] cands[i], frame) <= range
}

/// Frames a moved or resized edge snaps to: the current frame, then the
/// start and end of every other object on the same layer of the active
/// scene.
pub open spec fn snap_candidates_spec(
    objects: Seq<Placement>,
    current_frame: i32,
    active_scene: i32,
    layer: i32,
    exclude_id: usize,
) -> Seq<i32>
    decreases objects.len(),
{
    if objects.len() == 0 {
        seq![current_frame]
    } else {
        let prev = snap_candidates_spec(objects.drop_last(), current_frame, active_scene, layer, exclude_id);
        let o = objects.last();
        if o.scene == active_scene && o.layer == layer && o.id != exclude_id {
            prev.push(o.start_frame).push(o.end_frame)
        } else {
            prev
        }
    }
}

/// The frames an edge on `layer` may snap to (see `snap_candidates_spec`).
pub fn snap_candidates(
    objects: &[Placement],
    current_frame: i32,
    active_scene: i32,
    layer: i32,
    exclude_id: usize,
) -> (r: Vec<i32>)
    ensures
        r@ == snap_candidates_spec(objects@, current_frame, active_scene, layer, exclude_id),
{
    let mut out: Vec<i32> = Vec::new();
    out.push(current_frame);
    let mut i: usize = 0;
    assert(objects@.take(0) =~= Seq::<Placement>::empty());
    while i < objects.len()
        invariant
            i <= objects.len(),
            out@ == snap_candidates_spec(objects@.take(i as int), current_frame, active_scene, layer, exclude_id),
        decreases objects.len() - i,
    {
        assert(objects@.take(i + 1).drop_last() =~= objects@.take(i as int));
        assert(objects@.take(i + 1).last() == objects@[i as int]);
        let o = objects[i];
        if o.scene == active_scene && o.layer == layer && o.id != exclude_id {
            out.push(o.start_frame);
            out.push(o.end_frame);
        }
        i += 1;
    }
    assert(objects@.take(i as int) =~= objects@);
    out
}

/// Where an edge dragged to `frame` lands. When the scene grid moved it
/// (`grid_snapped` differs from `frame`) the grid wins; otherwise, when
/// magnetic snapping is enabled with a positive range, it lands on the first
/// closest candidate within the range, or stays at `frame`.
pub open spec fn snap_magnetic_spec(
    frame: i32,
    grid_snapped: i32,
    enabled: bool,
    range: i32,
    cands: Seq<i32>,
) -> i32 {
    if grid_snapped != frame {
        grid_snapped
    } else if !enabled || range <= 0 {
        frame
    } else {
        nearest_within(cands, frame, range)
    }
}

/// Where an edge dragged to `frame` lands (see `snap_magnetic_spec`).
pub fn snap_magnetic(frame: i32, grid_snapped: i32, enabled: bool, range: i32, cands: &[i32]) -> (r: i32)
    ensures
        r == snap_magnetic_spec(frame, grid_snapped, enabled, range, cands@),
{
    if grid_snapped != frame {
        return grid_snapped;
    }
    if !enabled || range <= 0 {
        return frame;
    }
    let mut best: i32 = frame;
    let mut best_d: i64 = 0;
    let mut found = false;
    let mut i: usize = 0;
    assert(cands@.take(0) =~= Seq::<i32>::empty());
    while i < cands.len()
        invariant
            i <= cands.len(),
            range > 0,
            best == nearest_within(cands@.take(i as int), frame, range),
            found == within_any(cands@.take(i as int), frame, range),
            found ==> best_d == dist(best, frame),
            !found ==> best == frame,
        decreases cands.len() - i,
    {
        let ghost t0 = cands@.take(i as int);
        let ghost t1 = cands@.take(i + 1);
        assert(t1.drop_last() =~= t0);
        assert(t1.last() == cands@[i as int]);
        let c = cands[i];
        let d: i64 = if c >= frame { c as i64 - frame as i64 } else { frame as i64 - c as i64 };
        if d <= range as i64 && (!found || d < best_d) {
            best = c;
            best_d = d;
            found = true;
        }
        proof {
            assert forall|j: int| 0 <= j < t0.len() implies #[trigger] t1[j] == t0[j] by {}
            if within_any(t1, frame, range) && !within_any(t0, frame, range) {
                let w = choose|w: int| 0 <= w < t1.len() && dist(#[trigger] t1[w], frame) <= range;
                if w < t0.len() {
                    assert(t0[w] == t1[w]);
                }
            }
            if within_any(t0, frame, range) {
                let w = choose|w: int| 0 <= w < t0.len() && dist(#[trigger] t0[w], frame) <= range;
                assert(t1[w] == t0[w]);
            }
        }
        i += 1;
    }
    assert(cands@.take(i as int) =~= cands@);
    best
}

/// The range after moving an object to start at `new_start`, keeping its
/// length, and by how many frames it moved.
pub open spec fn moved_range_spec(r: TimeRange, new_start: i32) -> (TimeRange, int) {
    (
        TimeRange {
            start_frame: new_start,
            end_frame: (new_start + (r.end_frame - r.start_frame)) as i32,
        },
        new_start - r.start_frame,
    )
}

/// Moves a range to start at `new_start`, keeping its length; gives the new
/// range and the distance moved (by which keyframes are shifted).
pub fn moved_range(r: TimeRange, new_start: i32) -> (out: (TimeRange, i32))
    requires
        i32::MIN <= r.end_frame - r.start_frame <= i32::MAX,
        i32::MIN <= new_start + (r.end_frame - r.start_frame) <= i32::MAX,
        i32::MIN <= new_start - r.start_frame <= i32::MAX,
    ensures
        out.0 == moved_range_spec(r, new_start).0,
        out.1 == moved_range_spec(r, new_start).1,
{
    let dur = r.end_frame - r.start_frame;
    let delta = new_start - r.start_frame;
    (TimeRange { start_frame: new_start, end_frame: new_start + dur }, delta)
}

/// The range after resizing to `[new_start, new_end)`: the start is not
/// before frame 0 and the range keeps at least one frame.
pub open spec fn resized_range_spec(new_start: i32, new_end: i32) -> TimeRange {
    let s = if new_start > 0 { new_start } else { 0 };
    TimeRange { start_frame: s, end_frame: if new_end > s + 1 { new_end } else { (s + 1) as i32 } }
}

/// Resizes a range (see `resized_range_spec`).
pub fn resized_range(new_start: i32, new_end: i32) -> (r: TimeRange)
    requires
        new_start < i32::MAX,
    ensures
        r == resized_range_spec(new_start, new_end),
{
    let s = if new_start > 0 { new_start } else { 0 };
    let e = if new_end > s + 1 { new_end } else { s + 1 };
    TimeRange { start_frame: s, end_frame: e }
}

/// The layer an object lands on when moved to `layer`: never above row 0.
pub fn clamp_layer(layer: i32) -> (r: i32)
    ensures
        r == if layer > 0 { layer } else { 0 },
{
    if layer > 0 { layer } else { 0 }
}

/// Objects that follow a ripple edit: every other object on `layer` that
/// starts at or after `from_frame`, with its start, in timeline order.
pub open spec fn ripple_followers_spec(objects: Seq<Placement>, object_id: usize, layer: i32, from_frame: i32) -> Seq<(usize, i32)>
    decreases objects.len(),
{
    if objects.len() == 0 {
        Seq::empty()
    } else {
        let prev = ripple_followers_spec(objects.drop_last(), object_id, layer, from_frame);
        let o = objects.last();
        if o.id != object_id && o.layer == layer && o.start_frame >= from_frame {
            prev.push((o.id, o.start_frame))
        } else {
            prev
        }
    }
}

/// The followers of a ripple edit are exactly the objects other than the
/// edited one that sit on `layer` and start at or after `from_frame`: the
/// edited object is never among them, each one is such an object with its
/// start, every such object is listed, and they come in the order of
/// `objects`.
pub proof fn law_ripple_followers(objects: Seq<Placement>, object_id: usize, layer: i32, from_frame: i32)
    ensures
        ({
            let r = ripple_followers_spec(objects, object_id, layer, from_frame);
            &&& forall|i: int| 0 <= i < r.len() ==> (#[trigger] r[i]).0 != object_id
            &&& forall|i: int| 0 <= i < r.len() ==> exists|j: int| 0 <= j < objects.len()
                && objects[j].id == (#[trigger] r[i]).0 && objects[j].start_frame == r[i].1
                && objects[j].layer == layer && objects[j].start_frame >= from_frame
            &&& forall|j: int| 0 <= j < objects.len() && (#[trigger] objects[j]).id != object_id
                && objects[j].layer == layer && objects[j].start_frame >= from_frame
                ==> r.contains((objects[j].id, objects[j].start_frame))
            &&& forall|i: int, k: int| 0 <= i < k < r.len() ==> exists|j1: int, j2: int|
                0 <= j1 < j2 < objects.len() && objects[j1].id == (#[trigger] r[i]).0
                && objects[j1].start_frame == r[i].1 && objects[j2].id == (#[trigger] r[k]).0
                && objects[j2].start_frame == r[k].1
        }),
    decreases objects.len(),
{
    let r = ripple_followers_spec(objects, object_id, layer, from_frame);
    if objects.len() > 0 {
        let d = objects.drop_last();
        let o = objects.last();
        let p = ripple_followers_spec(d, object_id, layer, from_frame);
        law_ripple_followers(d, object_id, layer, from_frame);
        assert forall|i: int| 0 <= i < r.len() implies exists|j: int| 0 <= j < objects.len()
            && objects[j].id == (#[trigger] r[i]).0 && objects[j].start_frame == r[i].1
            && objects[j].layer == layer && objects[j].start_frame >= from_frame by {
            if i < p.len() {
                assert(r[i] == p[i]);
                let j = choose|j: int| 0 <= j < d.len()
                    && d[j].id == p[i].0 && d[j].start_frame == p[i].1
                    && d[j].layer == layer && d[j].start_frame >= from_frame;
                assert(objects[j] == d[j]);
            } else {
                assert(objects[objects.len() - 1] == o);
            }
        }
        assert forall|j: int| 0 <= j < objects.len() && (#[trigger] objects[j]).id != object_id
            && objects[j].layer == layer && objects[j].start_frame >= from_frame
            implies r.contains((objects[j].id, objects[j].start_frame)) by {
            if j < d.len() {
                assert(objects[j] == d[j]);
                let k = choose|k: int| 0 <= k < p.len() && p[k] == (d[j].id, d[j].start_frame);
                assert(r[k] == p[k]);
            } else {
                assert(objects[j] == o);
                assert(r[r.len() - 1] == (o.id, o.start_frame));
            }
        }
        assert forall|i: int, k: int| 0 <= i < k < r.len() implies exists|j1: int, j2: int|
            0 <= j1 < j2 < objects.len() && objects[j1].id == (#[trigger] r[i]).0
            && objects[j1].start_frame == r[i].1 && objects[j2].id == (#[trigger] r[k]).0
            && objects[j2].start_frame == r[k].1 by {
            assert(r[i] == p[i]);
            if k < p.len() {
                assert(r[k] == p[k]);
                let (j1, j2) = choose|j1: int, j2: int|
                    0 <= j1 < j2 < d.len() && d[j1].id == p[i].0 && d[j1].start_frame == p[i].1
                    && d[j2].id == p[k].0 && d[j2].start_frame == p[k].1;
                assert(objects[j1] == d[j1] && objects[j2] == d[j2]);
            } else {
                let j1 = choose|j: int| 0 <= j < d.len()
                    && d[j].id == p[i].0 && d[j].start_frame == p[i].1
                    && d[j].layer == layer && d[j].start_frame >= from_frame;
                assert(objects[j1] == d[j1]);
                assert(objects[objects.len() - 1] == o);
                assert(r[k] == (o.id, o.start_frame));
            }
        }
    }
}

/// Objects that follow a ripple edit (see `ripple_followers_spec`).
pub fn ripple_followers(objects: &[Placement], object_id: usize, layer: i32, from_frame: i32) -> (r: Vec<(usize, i32)>)
    ensures
        r@ == ripple_followers_spec(objects@, object_id, layer, from_frame),
        forall|i: int| 0 <= i < r@.len() ==> (#[trigger] r@[i]).0 != object_id,
        forall|i: int| 0 <= i < r@.len() ==> exists|j: int| 0 <= j < objects@.len()
            && objects@[j].id == (#[trigger] r@[i]).0 && objects@[j].start_frame == r@[i].1
            && objects@[j].layer == layer && objects@[j].start_frame >= from_frame,
        forall|j: int| 0 <= j < objects@.len() && (#[trigger] objects@[j]).id != object_id
            && objects@[j].layer == layer && objects@[j].start_frame >= from_frame
            ==> r@.contains((objects@[j].id, objects@[j].start_frame)),
{
    proof {
        law_ripple_followers(objects@, object_id, layer, from_frame);
    }
    let mut out: Vec<(usize, i32)> = Vec::new();
    let mut i: usize = 0;
    assert(objects@.take(0) =~= Seq::<Placement>::empty());
    while i < objects.len()
        invariant
            i <= objects.len(),
            out@ == ripple_followers_spec(objects@.take(i as int), object_id, layer, from_frame),
        decreases objects.len() - i,
    {
        assert(objects@.take(i + 1).drop_last() =~= objects@.take(i as int));
        assert(objects@.take(i + 1).last() == objects@[i as int]);
        let o = objects[i];
        if o.id != object_id && o.layer == layer && o.start_frame >= from_frame {
            out.push((o.id, o.start_frame));
        }
        i += 1;
    }
    assert(objects@.take(i as int) =~= objects@);
    out
}

/// How many layers a track matte reaches from the target: downwards when
/// the source is below the target, upwards otherwise, as
/// `(layer_count_down, layer_count_up)`.
pub fn clip_layer_span(target_layer: i32, source_layer: i32) -> (r: (u32, u32))
    requires
        0 <= source_layer - target_layer <= u32::MAX || 0 <= target_layer - source_layer <= u32::MAX,
    ensures
        source_layer > target_layer ==> r == ((source_layer - target_layer) as u32, 0u32),
        source_layer <= target_layer ==> r == (0u32, (target_layer - source_layer) as u32),
{
    if source_layer > target_layer {
        (((source_layer as i64) - (target_layer as i64)) as u32, 0)
    } else {
        (0, ((target_layer as i64) - (source_layer as i64)) as u32)
    }
}

/// Largest number of parent links followed when looking for a cycle.
pub const MAX_PARENT_CHAIN: u32 = 4096;

/// The parent recorded for `id` among `(child, parent)` links: the first
/// link whose child is `id`.
pub open spec fn parent_in(links: Seq<(usize, usize)>, id: usize) -> Option<usize>
    decreases links.len(),
{
    if links.len() == 0 {
        None
    } else if links[0].0 == id {
        Some(links[0].1)
    } else {
        parent_in(links.drop_first(), id)
    }
}

/// Walking up the parents from `current` (after `depth` steps) reaches
/// `object`, or gives up after `MAX_PARENT_CHAIN` steps.
pub open spec fn walk_reaches(links: Seq<(usize, usize)>, current: usize, object: usize, depth: nat) -> bool
    decreases MAX_PARENT_CHAIN + 1 - depth,
{
    if current == object {
        true
    } else if depth + 1 > MAX_PARENT_CHAIN {
        true
    } else {
        match parent_in(links, current) {
            Some(p) => walk_reaches(links, p, object, depth + 1),
            None => false,
        }
    }
}

/// The parent of `id` among `(child, parent)` links.
pub fn parent_of(links: &[(usize, usize)], id: usize) -> (r: Option<usize>)
    ensures
        r == parent_in(links@, id),
{
    let mut i: usize = 0;
    assert(links@.skip(0) =~= links@);
    while i < links.len()
        invariant
            i <= links.len(),
            parent_in(links@, id) == parent_in(links@.skip(i as int), id),
        decreases links.len() - i,
    {
        assert(links@.skip(i as int)[0] == links@[i as int]);
        assert(links@.skip(i as int).drop_first() =~= links@.skip(i + 1));
        if links[i].0 == id {
            return Some(links[i].1);
        }
        i += 1;
    }
    assert(links@.skip(i as int).len() == 0);
    None
}

/// Whether making `candidate_parent` the parent of `object_id` would close a
/// cycle: walking up from the candidate reaches the object (a chain longer
/// than `MAX_PARENT_CHAIN` counts as a cycle).
pub fn creates_parent_cycle(links: &[(usize, usize)], object_id: usize, candidate_parent: usize) -> (r: bool)
    ensures
        r == walk_reaches(links@, candidate_parent, object_id, 0),
{
    let mut current = candidate_parent;
    let mut depth: u32 = 0;
    loop
        invariant
            depth <= MAX_PARENT_CHAIN,
            walk_reaches(links@, candidate_parent, object_id, 0) == walk_reaches(links@, current, object_id, depth as nat),
        decreases MAX_PARENT_CHAIN - depth,
    {
        if current == object_id {
            return true;
        }
        if depth + 1 > MAX_PARENT_CHAIN {
            return true;
        }
        match parent_of(links, current) {
            Some(p) => {
                current = p;
                depth += 1;
            },
            None => {
                return false;
            },
        }
    }
}

/// Whether `parent_id` may become the parent of `object_id`: not itself and
/// not closing a cycle.
pub fn parent_allowed(links: &[(usize, usize)], object_id: usize, parent_id: usize) -> (r: bool)
    ensures
        r == (parent_id != object_id && !walk_reaches(links@, parent_id, object_id, 0)),
{
    parent_id != object_id && !creates_parent_cycle(links, object_id, parent_id)
}

/// The links without those whose child is `object`, in order.
pub open spec fn without_child(links: Seq<(usize, usize)>, object: usize) -> Seq<(usize, usize)>
    decreases links.len(),
{
    if links.len() == 0 {
        Seq::empty()
    } else if links[0].0 == object {
        without_child(links.drop_first(), object)
    } else {
        seq![links[0]] + without_child(links.drop_first(), object)
    }
}

/// The links after asking for `parent` to become the parent of `object`,
/// among the objects `objects`: nothing changes for an unknown object or a
/// parent that `parent_allowed` refuses; otherwise the object's old link
/// goes, and a new one is added at the end when a parent is given.
pub open spec fn set_parent_spec(
    links: Seq<(usize, usize)>,
    objects: Seq<usize>,
    object: usize,
    parent: Option<usize>,
) -> Seq<(usize, usize)> {
    if !objects.contains(object) {
        links
    } else {
        match parent {
            Some(p) => if p == object || walk_reaches(links, p, object, 0) {
                links
            } else {
                without_child(links, object).push((object, p))
            },
            None => without_child(links, object),
        }
    }
}

/// Walking up from `id`, an object without a parent is reached within `n`
/// steps.
pub open spec fn ends_within(links: Seq<(usize, usize)>, id: usize, n: nat) -> bool
    decreases n,
{
    match parent_in(links, id) {
        None => true,
        Some(q) => n > 0 && ends_within(links, q, (n - 1) as nat),
    }
}

/// Walking up the parents from `id` ends at an object without a parent.
pub open spec fn chain_ends(links: Seq<(usize, usize)>, id: usize) -> bool {
    exists|n: nat| #[trigger] ends_within(links, id, n)
}

/// Walking up the parents from any object ends at an object without a
/// parent.
pub open spec fn all_chains_end(links: Seq<(usize, usize)>) -> bool {
    forall|id: usize| #[trigger] chain_ends(links, id)
}

/// Walking up `n` parents from `from` leads to `to`.
pub open spec fn reaches_in(links: Seq<(usize, usize)>, from: usize, to: usize, n: nat) -> bool
    decreases n,
{
    if n == 0 {
        from == to
    } else {
        match parent_in(links, from) {
            Some(q) => reaches_in(links, q, to, (n - 1) as nat),
            None => false,
        }
    }
}

/// No object is its own ancestor.
pub open spec fn no_cycle(links: Seq<(usize, usize)>) -> bool {
    forall|id: usize, n: nat| n >= 1 ==> !#[trigger] reaches_in(links, id, id, n)
}

fn contains_id(ids: &[usize], id: usize) -> (r: bool)
    ensures
        r == ids@.contains(id),
{
    let mut i: usize = 0;
    while i < ids.len()
        invariant
            i <= ids.len(),
            forall|j: int| 0 <= j < i ==> ids@[j] != id,
        decreases ids.len() - i,
    {
        if ids[i] == id {
            assert(ids@[i as int] == id);
            return true;
        }
        i += 1;
    }
    false
}

fn drop_child(links: &Vec<(usize, usize)>, object: usize) -> (r: Vec<(usize, usize)>)
    ensures
        r@ == without_child(links@, object),
{
    let mut out: Vec<(usize, usize)> = Vec::new();
    let mut i: usize = 0;
    assert(links@.skip(0) =~= links@);
    while i < links.len()
        invariant
            i <= links.len(),
            without_child(links@, object) == out@ + without_child(links@.skip(i as int), object),
        decreases links.len() - i,
    {
        let ghost rest = without_child(links@.skip(i + 1), object);
        assert(links@.skip(i as int)[0] == links@[i as int]);
        assert(links@.skip(i as int).drop_first() =~= links@.skip(i + 1));
        let l = links[i];
        if l.0 != object {
            assert(out@.push(l) + rest =~= out@ + (seq![l] + rest));
            out.push(l);
        }
        i += 1;
    }
    assert(links@.skip(i as int).len() == 0);
    assert(out@ + Seq::<(usize, usize)>::empty() =~= out@);
    out
}

/// Makes `parent_id` the parent of `object_id` (or removes its parent when
/// `parent_id` is `None`). Nothing changes when `object_id` is not among
/// `objects`, or when the parent would be the object itself or would close
/// a cycle.
pub fn set_parent(links: &mut Vec<(usize, usize)>, objects: &[usize], object_id: usize, parent_id: Option<usize>)
    ensures
        final(links)@ == set_parent_spec(old(links)@, objects@, object_id, parent_id),
        forall|id: usize| id != object_id ==> parent_in(final(links)@, id) == parent_in(old(links)@, id),
        parent_in(final(links)@, object_id) == (if !objects@.contains(object_id) {
            parent_in(old(links)@, object_id)
        } else {
            match parent_id {
                Some(p) => if p == object_id || walk_reaches(old(links)@, p, object_id, 0) {
                    parent_in(old(links)@, object_id)
                } else {
                    Some(p)
                },
                None => None,
            }
        }),
{
    if !contains_id(objects, object_id) {
        return;
    }
    match parent_id {
        Some(pid) => {
            if !parent_allowed(links.as_slice(), object_id, pid) {
                return;
            }
            let mut kept = drop_child(links, object_id);
            kept.push((object_id, pid));
            proof {
                lemma_set_parent_parents(old(links)@, objects@, object_id, parent_id);
            }
            *links = kept;
        },
        None => {
            let kept = drop_child(links, object_id);
            proof {
                lemma_set_parent_parents(old(links)@, objects@, object_id, parent_id);
            }
            *links = kept;
        },
    }
}

/// The parent of `id` among `a + b` is its parent in `a`, or else in `b`.
pub proof fn lemma_parent_in_concat(a: Seq<(usize, usize)>, b: Seq<(usize, usize)>, id: usize)
    ensures
        parent_in(a + b, id) == (match parent_in(a, id) {
            Some(p) => Some(p),
            None => parent_in(b, id),
        }),
    decreases a.len(),
{
    if a.len() == 0 {
        assert(a + b =~= b);
    } else {
        assert((a + b)[0] == a[0]);
        assert((a + b).drop_first() =~= a.drop_first() + b);
        lemma_parent_in_concat(a.drop_first(), b, id);
    }
}

/// Dropping the links of `object` leaves it without a parent and keeps
/// every other parent.
pub proof fn lemma_without_child(links: Seq<(usize, usize)>, object: usize, id: usize)
    ensures
        parent_in(without_child(links, object), id) == (if id == object { None } else { parent_in(links, id) }),
    decreases links.len(),
{
    if links.len() > 0 {
        let rest = without_child(links.drop_first(), object);
        lemma_without_child(links.drop_first(), object, id);
        if links[0].0 != object {
            assert((seq![links[0]] + rest)[0] == links[0]);
            assert((seq![links[0]] + rest).drop_first() =~= rest);
        }
    }
}

/// What `set_parent_spec` does to the parents.
pub proof fn lemma_set_parent_parents(
    links: Seq<(usize, usize)>,
    objects: Seq<usize>,
    object: usize,
    parent: Option<usize>,
)
    ensures
        forall|id: usize| id != object ==> parent_in(set_parent_spec(links, objects, object, parent), id) == parent_in(links, id),
        parent_in(set_parent_spec(links, objects, object, parent), object) == (if !objects.contains(object) {
            parent_in(links, object)
        } else {
            match parent {
                Some(p) => if p == object || walk_reaches(links, p, object, 0) {
                    parent_in(links, object)
                } else {
                    Some(p)
                },
                None => None,
            }
        }),
{
    let w = without_child(links, object);
    assert forall|id: usize| #![trigger parent_in(set_parent_spec(links, objects, object, parent), id)]
        true implies parent_in(set_parent_spec(links, objects, object, parent), id) == (if id != object {
            parent_in(links, id)
        } else if !objects.contains(object) {
            parent_in(links, object)
        } else {
            match parent {
                Some(p) => if p == object || walk_reaches(links, p, object, 0) {
                    parent_in(links, object)
                } else {
                    Some(p)
                },
                None => None,
            }
        }) by {
        lemma_without_child(links, object, id);
        if let Some(p) = parent {
            let one = seq![(object, p)];
            assert(w.push((object, p)) =~= w + one);
            lemma_parent_in_concat(w, one, id);
            assert(one[0] == (object, p));
            assert(one.drop_first() =~= Seq::<(usize, usize)>::empty());
            assert(parent_in(one.drop_first(), id) == None::<usize>);
            assert(parent_in(one, id) == (if id == object { Some(p) } else { None::<usize> }));
            if objects.contains(object) && !(p == object || walk_reaches(links, p, object, 0)) {
                assert(set_parent_spec(links, objects, object, parent) == w.push((object, p)));
            }
        }
    }
}

/// Walking up from `id` never meets `object` and reaches an object without
/// a parent within `n` steps.
pub open spec fn ends_avoiding(links: Seq<(usize, usize)>, id: usize, object: usize, n: nat) -> bool
    decreases n,
{
    id != object && match parent_in(links, id) {
        None => true,
        Some(q) => n > 0 && ends_avoiding(links, q, object, (n - 1) as nat),
    }
}

/// A walk that `creates_parent_cycle` answers with `false` stays clear of
/// the object and ends.
proof fn lemma_refused_walk_avoids(links: Seq<(usize, usize)>, current: usize, object: usize, depth: nat)
    requires
        depth <= MAX_PARENT_CHAIN,
        !walk_reaches(links, current, object, depth),
    ensures
        ends_avoiding(links, current, object, (MAX_PARENT_CHAIN - depth) as nat),
    decreases MAX_PARENT_CHAIN - depth,
{
    if let Some(q) = parent_in(links, current) {
        lemma_refused_walk_avoids(links, q, object, depth + 1);
    }
}

proof fn lemma_ends_within_more(links: Seq<(usize, usize)>, id: usize, n: nat, m: nat)
    requires
        ends_within(links, id, n),
        n <= m,
    ensures
        ends_within(links, id, m),
    decreases n,
{
    if let Some(q) = parent_in(links, id) {
        lemma_ends_within_more(links, q, (n - 1) as nat, (m - 1) as nat);
    }
}

proof fn lemma_avoiding_walk_kept(before: Seq<(usize, usize)>, after: Seq<(usize, usize)>, object: usize, id: usize, n: nat)
    requires
        ends_avoiding(before, id, object, n),
        forall|y: usize| y != object ==> parent_in(after, y) == parent_in(before, y),
    ensures
        ends_within(after, id, n),
    decreases n,
{
    if let Some(q) = parent_in(before, id) {
        lemma_avoiding_walk_kept(before, after, object, q, (n - 1) as nat);
    }
}

proof fn lemma_reparented_walk_ends(
    before: Seq<(usize, usize)>,
    after: Seq<(usize, usize)>,
    object: usize,
    p: usize,
    id: usize,
    n: nat,
    m: nat,
)
    requires
        ends_within(before, id, n),
        ends_avoiding(before, p, object, m),
        forall|y: usize| y != object ==> parent_in(after, y) == parent_in(before, y),
        parent_in(after, object) == Some(p),
    ensures
        ends_within(after, id, n + m + 1),
    decreases n,
{
    if id == object {
        lemma_avoiding_walk_kept(before, after, object, p, m);
        lemma_ends_within_more(after, p, m, n + m);
    } else if let Some(q) = parent_in(before, id) {
        lemma_reparented_walk_ends(before, after, object, p, q, (n - 1) as nat, m);
    }
}

proof fn lemma_unparented_walk_ends(before: Seq<(usize, usize)>, after: Seq<(usize, usize)>, object: usize, id: usize, n: nat)
    requires
        ends_within(before, id, n),
        forall|y: usize| y != object ==> parent_in(after, y) == parent_in(before, y),
        parent_in(after, object) == None::<usize>,
    ensures
        ends_within(after, id, n),
    decreases n,
{
    if id != object {
        if let Some(q) = parent_in(before, id) {
            lemma_unparented_walk_ends(before, after, object, q, (n - 1) as nat);
        }
    }
}

proof fn lemma_walk_then_end(links: Seq<(usize, usize)>, from: usize, to: usize, n: nat, m: nat)
    requires
        reaches_in(links, from, to, n),
        ends_within(links, from, m),
    ensures
        n <= m,
        ends_within(links, to, (m - n) as nat),
    decreases n,
{
    if n > 0 {
        let q = parent_in(links, from).unwrap();
        lemma_walk_then_end(links, q, to, (n - 1) as nat, (m - 1) as nat);
    }
}

proof fn lemma_no_return(links: Seq<(usize, usize)>, id: usize, n: nat, m: nat)
    requires
        n >= 1,
        ends_within(links, id, m),
    ensures
        !reaches_in(links, id, id, n),
    decreases m,
{
    if reaches_in(links, id, id, n) {
        lemma_walk_then_end(links, id, id, n, m);
        lemma_no_return(links, id, n, (m - n) as nat);
    }
}

/// Where every walk up the parents ends, no object is its own ancestor.
pub proof fn lemma_chains_end_no_cycle(links: Seq<(usize, usize)>)
    requires
        all_chains_end(links),
    ensures
        no_cycle(links),
{
    assert forall|id: usize, n: nat| n >= 1 implies !#[trigger] reaches_in(links, id, id, n) by {
        assert(chain_ends(links, id));
        let m = choose|m: nat| ends_within(links, id, m);
        lemma_no_return(links, id, n, m);
    }
}

/// Setting or removing a parent through `set_parent` keeps the parent
/// chains acyclic: if every walk up the parents ended before, every walk
/// still ends afterwards, and no object becomes its own ancestor.
pub proof fn law_set_parent_keeps_chains_acyclic(
    links: Seq<(usize, usize)>,
    objects: Seq<usize>,
    object: usize,
    parent: Option<usize>,
)
    requires
        all_chains_end(links),
    ensures
        all_chains_end(set_parent_spec(links, objects, object, parent)),
        no_cycle(set_parent_spec(links, objects, object, parent)),
{
    let after = set_parent_spec(links, objects, object, parent);
    lemma_set_parent_parents(links, objects, object, parent);
    if objects.contains(object) {
        match parent {
            Some(p) => {
                if !(p == object || walk_reaches(links, p, object, 0)) {
                    lemma_refused_walk_avoids(links, p, object, 0);
                    let m = MAX_PARENT_CHAIN as nat;
                    assert forall|id: usize| #[trigger] chain_ends(after, id) by {
                        assert(chain_ends(links, id));
                        let n = choose|n: nat| ends_within(links, id, n);
                        lemma_reparented_walk_ends(links, after, object, p, id, n, m);
                    }
                }
            },
            None => {
                assert forall|id: usize| #[trigger] chain_ends(after, id) by {
                    assert(chain_ends(links, id));
                    let n = choose|n: nat| ends_within(links, id, n);
                    lemma_unparented_walk_ends(links, after, object, id, n);
                }
            },
        }
    }
    lemma_chains_end_no_cycle(after);
}

/// What a controller in an object's group chain is: a group (which may
/// render what it captures into a frame buffer, and may hide the captured
/// objects from the ordinary pass) or a clip target.
#[derive(Clone, Copy, Debug, PartialEq, Eq, Structural)]
pub enum ControllerRole {
    Group { generate_framebuffer: bool, hide_captured: bool },
    Clip,
}

/// A clip controller (`clip`), or a group that renders into a frame
/// buffer (`!clip`).
pub open spec fn role_matches(r: ControllerRole, clip: bool) -> bool {
    match r {
        ControllerRole::Clip => clip,
        ControllerRole::Group { generate_framebuffer, .. } => !clip && generate_framebuffer,
    }
}

/// `p` is the first position of `chain` whose controller matches (`None`:
/// no position does).
pub open spec fn is_first_match(chain: Seq<usize>, roles: Seq<ControllerRole>, clip: bool, p: Option<usize>) -> bool {
    match p {
        Some(i) => {
            &&& i < chain.len()
            &&& role_matches(roles[chain[i as int] as int], clip)
            &&& forall|j: int| 0 <= j < i ==> !role_matches(roles[#[trigger] chain[j] as int], clip)
        },
        None => forall|j: int| 0 <= j < chain.len() ==> !role_matches(roles[#[trigger] chain[j] as int], clip),
    }
}

/// Every entry of `chain` names one of `roles`.
pub open spec fn chain_in_range(chain: Seq<usize>, roles: Seq<ControllerRole>) -> bool {
    forall|j: int| 0 <= j < chain.len() ==> #[trigger] chain[j] < roles.len()
}

fn first_match(chain: &[usize], roles: &[ControllerRole], clip: bool) -> (r: Option<usize>)
    requires
        chain_in_range(chain@, roles@),
    ensures
        is_first_match(chain@, roles@, clip, r),
{
    let mut i: usize = 0;
    while i < chain.len()
        invariant
            i <= chain.len(),
            chain_in_range(chain@, roles@),
            forall|j: int| 0 <= j < i ==> !role_matches(roles@[#[trigger] chain@[j] as int], clip),
        decreases chain.len() - i,
    {
        let c = chain[i];
        let hit = match roles[c] {
            ControllerRole::Clip => clip,
            ControllerRole::Group { generate_framebuffer, .. } => !clip && generate_framebuffer,
        };
        if hit {
            return Some(i);
        }
        i += 1;
    }
    None
}

/// A capture by a frame-buffer group: the group's controller, the part of
/// the chain inside it, and the clip controller that applies inside it.
pub struct Capture {
    pub controller: usize,
    pub inner_chain: Vec<usize>,
    pub inner_clip: Option<usize>,
}

/// How an active object is composed, given its group chain: the clip
/// controller of its ordinary copy, the capture by the first frame-buffer
/// group if any, and the chain of the ordinary copy (`None` when the
/// capturing group hides what it captures).
pub struct ComposePlan {
    pub clip: Option<usize>,
    pub capture: Option<Capture>,
    pub shown_chain: Option<Vec<usize>>,
}

/// The controller at the first matching position of `chain`, if any.
pub open spec fn first_controller(chain: Seq<usize>, p: Option<usize>) -> Option<usize> {
    match p {
        Some(i) => Some(chain[i as int]),
        None => None,
    }
}

/// How an object whose group chain is `chain` (controller indices into
/// `roles`, innermost first) is composed: its ordinary copy takes the first
/// clip controller of the chain; the first group of the chain that renders
/// into a frame buffer captures it, with the chain before that group and
/// the first clip controller there; the ordinary copy is drawn with the
/// chain without the capturing group, or not at all when that group hides
/// what it captures; without such a group it is drawn with the whole chain.
pub fn compose_plan(chain: &[usize], roles: &[ControllerRole]) -> (r: ComposePlan)
    requires
        chain_in_range(chain@, roles@),
    ensures
        exists|c: Option<usize>, f: Option<usize>|
            #![trigger is_first_match(chain@, roles@, true, c), is_first_match(chain@, roles@, false, f)]
        {
            &&& is_first_match(chain@, roles@, true, c)
            &&& is_first_match(chain@, roles@, false, f)
            &&& r.clip == first_controller(chain@, c)
            &&& match f {
                None => {
                    &&& r.capture is None
                    &&& (r.shown_chain matches Some(v) && v@ == chain@)
                },
                Some(p) => {
                    &&& (r.capture matches Some(cap) && cap.controller == chain@[p as int]
                        && cap.inner_chain@ == chain@.take(p as int) && cap.inner_clip == (match c {
                        Some(q) => if q < p { Some(chain@[q as int]) } else { None },
                        None => None,
                    }))
                    &&& match roles@[chain@[p as int] as int] {
                        ControllerRole::Group { hide_captured: true, .. } => r.shown_chain is None,
                        _ => (r.shown_chain matches Some(v) && v@ == chain@.remove(p as int)),
                    }
                },
            }
        },
{
    let c = first_match(chain, roles, true);
    let f = first_match(chain, roles, false);
    let clip = match c {
        Some(q) => Some(chain[q]),
        None => None,
    };
    match f {
        None => {
            let mut all: Vec<usize> = Vec::new();
            let mut i: usize = 0;
            while i < chain.len()
                invariant
                    i <= chain.len(),
                    all@ == chain@.take(i as int),
                decreases chain.len() - i,
            {
                all.push(chain[i]);
                assert(chain@.take(i + 1) =~= chain@.take(i as int).push(chain@[i as int]));
                i += 1;
            }
            assert(chain@.take(i as int) =~= chain@);
            let r = ComposePlan { clip, capture: None, shown_chain: Some(all) };
            assert(is_first_match(chain@, roles@, true, c) && is_first_match(chain@, roles@, false, f));
            assert(r.clip == first_controller(chain@, c));
            r
        },
        Some(p) => {
            let mut inner: Vec<usize> = Vec::new();
            let mut shown: Vec<usize> = Vec::new();
            let mut i: usize = 0;
            while i < chain.len()
                invariant
                    p < chain.len(),
                    i <= chain.len(),
                    inner@ == chain@.take(if i < p { i as int } else { p as int }),
                    shown@ == (if i <= p { chain@.take(i as int) } else { chain@.take(i as int).remove(p as int) }),
                decreases chain.len() - i,
            {
                if i < p {
                    inner.push(chain[i]);
                }
                if i != p {
                    shown.push(chain[i]);
                }
                assert(chain@.take(i + 1) =~= chain@.take(i as int).push(chain@[i as int]));
                assert(i > p ==> chain@.take(i + 1).remove(p as int) =~= chain@.take(i as int).remove(
                    p as int,
                ).push(chain@[i as int]));
                assert(i == p ==> chain@.take(i + 1).remove(p as int) =~= chain@.take(i as int));
                i += 1;
            }
            assert(chain@.take(i as int) =~= chain@);
            let inner_clip = match c {
                Some(q) => if q < p { Some(chain[q]) } else { None },
                None => None,
            };
            let hide = match roles[chain[p]] {
                ControllerRole::Group { hide_captured, .. } => hide_captured,
                ControllerRole::Clip => false,
            };
            let capture = Capture { controller: chain[p], inner_chain: inner, inner_clip };
            assert(is_first_match(chain@, roles@, true, c) && is_first_match(chain@, roles@, false, f));
            if hide {
                ComposePlan { clip, capture: Some(capture), shown_chain: None }
            } else {
                ComposePlan { clip, capture: Some(capture), shown_chain: Some(shown) }
            }
        },
    }
}

/// Where a pasted object lands: shifted so that the earliest copied start
/// goes to `target_frame` and the top copied layer to `target_layer`, never
/// before frame 0 or above layer 0, keeping its length.
pub open spec fn paste_spec(p: Placement, anchor_start: i32, anchor_layer: i32, target_frame: i32, target_layer: i32) -> (i32, i32, i32) {
    let s0 = target_frame + (p.start_frame - anchor_start);
    let s = if s0 > 0 { s0 } else { 0 };
    let l0 = target_layer + (p.layer - anchor_layer);
    let l = if l0 > 0 { l0 } else { 0 };
    (s as i32, (s + (p.end_frame - p.start_frame)) as i32, l as i32)
}

/// Smallest start among copied objects.
pub open spec fn min_start(s: Seq<Placement>) -> int
    decreases s.len(),
{
    if s.len() == 0 {
        0
    } else if s.len() == 1 {
        s[0].start_frame as int
    } else {
        let m = min_start(s.drop_last());
        if s.last().start_frame < m { s.last().start_frame as int } else { m }
    }
}

/// Smallest layer among copied objects.
pub open spec fn min_layer(s: Seq<Placement>) -> int
    decreases s.len(),
{
    if s.len() == 0 {
        0
    } else if s.len() == 1 {
        s[0].layer as int
    } else {
        let m = min_layer(s.drop_last());
        if s.last().layer < m { s.last().layer as int } else { m }
    }
}

/// Every pasted placement fits in `i32`.
pub open spec fn paste_fits(docs: Seq<Placement>, target_frame: i32, target_layer: i32) -> bool {
    forall|i: int| 0 <= i < docs.len() ==> {
        let p = #[trigger] docs[i];
        let s0 = target_frame + (p.start_frame - min_start(docs));
        let s = if s0 > 0 { s0 } else { 0 };
        let l0 = target_layer + (p.layer - min_layer(docs));
        &&& i32::MIN <= p.start_frame - min_start(docs) <= i32::MAX
        &&& i32::MIN <= p.layer - min_layer(docs) <= i32::MAX
        &&& i32::MIN <= s0 <= i32::MAX
        &&& i32::MIN <= l0 <= i32::MAX
        &&& i32::MIN <= p.end_frame - p.start_frame <= i32::MAX
        &&& i32::MIN <= s + (p.end_frame - p.start_frame) <= i32::MAX
    }
}

proof fn lemma_min_start_le(s: Seq<Placement>, i: int)
    requires
        0 <= i < s.len(),
    ensures
        min_start(s) <= s[i].start_frame,
        min_layer(s) <= s[i].layer,
    decreases s.len(),
{
    if s.len() > 1 && i < s.len() - 1 {
        lemma_min_start_le(s.drop_last(), i);
    }
}

/// Placements `(start, end, layer)` of pasted copies of `docs` (see
/// `paste_spec`), in order.
pub fn paste_placements(docs: &[Placement], target_frame: i32, target_layer: i32) -> (r: Vec<(i32, i32, i32)>)
    requires
        paste_fits(docs@, target_frame, target_layer),
    ensures
        r@.len() == docs@.len(),
        forall|i: int| 0 <= i < docs@.len() ==> #[trigger] r@[i] == paste_spec(
            docs@[i],
            min_start(docs@) as i32,
            min_layer(docs@) as i32,
            target_frame,
            target_layer,
        ),
{
    let mut out: Vec<(i32, i32, i32)> = Vec::new();
    if docs.len() == 0 {
        return out;
    }
    let mut anchor_start = docs[0].start_frame;
    let mut anchor_layer = docs[0].layer;
    let mut i: usize = 1;
    while i < docs.len()
        invariant
            1 <= i <= docs.len(),
            anchor_start == min_start(docs@.take(i as int)),
            anchor_layer == min_layer(docs@.take(i as int)),
        decreases docs.len() - i,
    {
        assert(docs@.take(i + 1).drop_last() =~= docs@.take(i as int));
        assert(docs@.take(i + 1).last() == docs@[i as int]);
        if docs[i].start_frame < anchor_start {
            anchor_start = docs[i].start_frame;
        }
        if docs[i].layer < anchor_layer {
            anchor_layer = docs[i].layer;
        }
        i += 1;
    }
    assert(docs@.take(i as int) =~= docs@);
    let mut k: usize = 0;
    while k < docs.len()
        invariant
            k <= docs.len(),
            anchor_start == min_start(docs@),
            anchor_layer == min_layer(docs@),
            paste_fits(docs@, target_frame, target_layer),
            out@.len() == k,
            forall|j: int| 0 <= j < k ==> #[trigger] out@[j] == paste_spec(
                docs@[j],
                anchor_start,
                anchor_layer,
                target_frame,
                target_layer,
            ),
        decreases docs.len() - k,
    {
        let p = docs[k];
        assert(paste_fits(docs@, target_frame, target_layer));
        let ghost pk = docs@[k as int];
        assert(i32::MIN <= pk.start_frame - min_start(docs@) <= i32::MAX);
        let dur = p.end_frame - p.start_frame;
        let s0 = target_frame + (p.start_frame - anchor_start);
        let s = if s0 > 0 { s0 } else { 0 };
        let l0 = target_layer + (p.layer - anchor_layer);
        let l = if l0 > 0 { l0 } else { 0 };
        out.push((s, s + dur, l));
        k += 1;
    }
    out
}

/// The two halves of a range split at `split_frame`, when it lies strictly
/// inside; `None` otherwise.
pub fn split_range(r: TimeRange, split_frame: i32) -> (out: Option<(TimeRange, TimeRange)>)
    ensures
        (split_frame <= r.start_frame || split_frame >= r.end_frame) ==> out is None,
        (r.start_frame < split_frame < r.end_frame) ==> out == Some((
            TimeRange { start_frame: r.start_frame, end_frame: split_frame },
            TimeRange { start_frame: split_frame, end_frame: r.end_frame },
        )),
{
    if split_frame <= r.start_frame || split_frame >= r.end_frame {
        return None;
    }
    Some((
        TimeRange { start_frame: r.start_frame, end_frame: split_frame },
        TimeRange { start_frame: split_frame, end_frame: r.end_frame },
    ))
}

/// Media trim of the second half of a split media object: the source frame
/// where it starts.
pub fn split_trim_in(trim_in_frame: i64, start_frame: i32, split_frame: i32) -> (r: i64)
    requires
        i64::MIN <= trim_in_frame + (split_frame - start_frame) <= i64::MAX,
    ensures
        r == trim_in_frame + (split_frame - start_frame),
{
    trim_in_frame + (split_frame as i64 - start_frame as i64)
}

/// Moves the item at `from` to position `to`; nothing happens unless both
/// are inside the list (as when reordering an object's effects).
pub fn reorder_effect<T>(items: &mut Vec<T>, from: usize, to: usize)
    ensures
        (from < old(items)@.len() && to < old(items)@.len()) ==> final(items)@ == old(items)@.remove(from as int).insert(
            to as int,
            old(items)@[from as int],
        ),
        !(from < old(items)@.len() && to < old(items)@.len()) ==> final(items)@ == old(items)@,
{
    if from < items.len() && to < items.len() {
        let item = items.remove(from);
        items.insert(to, item);
    }
}

/// The timeline row of an object of the active scene: `group` holds the
/// layer counts (down, up) of its group control, `clip` whether its track
/// matte is enabled and the matte's layer counts; counts of a missing or
/// disabled control are 0.
pub fn timeline_row(
    id: usize,
    range: TimeRange,
    kind: KindId,
    layer: Layer,
    media: Option<(String, i64)>,
    group: Option<(u32, u32)>,
    clip: Option<(bool, u32, u32)>,
) -> (r: TimelineData)
    ensures
        r.id == id as i32,
        r.start_frame == range.start_frame,
        r.end_frame == range.end_frame,
        r.kind == kind.0 as i32,
        r.layer == layer.0,
        r.media_path == match media { Some(m) => Some(m.0), None => None::<String> },
        r.media_trim_in_frame == match media { Some(m) => m.1, None => 0 },
        (r.group_layer_count_down, r.group_layer_count_up) == match group {
            Some(g) => (g.0 as i32, g.1 as i32),
            None => (0i32, 0i32),
        },
        (r.clip_layer_count_down, r.clip_layer_count_up) == match clip {
            Some(c) => if c.0 { (c.1 as i32, c.2 as i32) } else { (0i32, 0i32) },
            None => (0i32, 0i32),
        },
{
    let (group_down, group_up) = match group {
        Some((d, u)) => (d as i32, u as i32),
        None => (0, 0),
    };
    let (clip_down, clip_up) = match clip {
        Some((enabled, d, u)) => if enabled { (d as i32, u as i32) } else { (0, 0) },
        None => (0, 0),
    };
    let (media_path, media_trim_in_frame) = match media {
        Some((p, trim)) => (Some(p), trim),
        None => (None, 0),
    };
    TimelineData {
        id: id as i32,
        start_frame: range.start_frame,
        end_frame: range.end_frame,
        kind: kind.0 as i32,
        layer: layer.0,
        media_path,
        media_trim_in_frame,
        group_layer_count_down: group_down,
        group_layer_count_up: group_up,
        clip_layer_count_down: clip_down,
        clip_layer_count_up: clip_up,
    }
}

} // verus!
