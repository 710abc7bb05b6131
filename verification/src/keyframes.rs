//! Keyframe tracks of animated parameters and the time-remap curve.
use vstd::prelude::*;
use crate::strmap::{StrMap, lemma_map_of_finite};

verus! {

/// One keyframe: a value at a frame, eased by the engine named `engine_id`,
/// and applied in the mode `apply_mode`.
#[derive(Clone, Debug)]
pub struct Keyframe<V, M> {
    pub frame: i32,
    pub value: V,
    pub engine_id: String,
    pub engine_payload: Vec<u8>,
    pub edit_seq: u64,
    pub apply_mode: M,
}

/// The plain-value picture of a keyframe.
pub struct KeyframeView<V, M> {
    pub frame: i32,
    pub value: V,
    pub engine_id: Seq<char>,
    pub engine_payload: Seq<u8>,
    pub edit_seq: u64,
    pub apply_mode: M,
}

impl<V, M> View for Keyframe<V, M> {
    type V = KeyframeView<V, M>;

    open spec fn view(&self) -> KeyframeView<V, M> {
        KeyframeView {
            frame: self.frame,
            value: self.value,
            engine_id: self.engine_id@,
            engine_payload: self.engine_payload@,
            edit_seq: self.edit_seq,
            apply_mode: self.apply_mode,
        }
    }
}

/// The plain-value picture of a keyframe vector.
pub open spec fn kview<V, M>(s: Seq<Keyframe<V, M>>) -> Seq<KeyframeView<V, M>> {
    s.map_values(|k: Keyframe<V, M>| k@)
}

/// Frames strictly increase along the track.
pub open spec fn frames_increasing<V, M>(s: Seq<KeyframeView<V, M>>) -> bool {
    forall|i: int, j: int| 0 <= i < j < s.len() ==> s[i].frame < s[j].frame
}

/// Number of leading keyframes whose frame is below `f`: the place where a
/// keyframe at `f` belongs in an increasing track.
pub open spec fn lower_bound<V, M>(s: Seq<KeyframeView<V, M>>, f: i32) -> nat
    decreases s.len(),
{
    if s.len() == 0 {
        0
    } else if s[0].frame < f {
        1 + lower_bound(s.drop_first(), f)
    } else {
        0
    }
}

/// The track with `k` put at its frame: it replaces a keyframe already at
/// that frame, or is inserted in frame order.
pub open spec fn upserted<V, M>(s: Seq<KeyframeView<V, M>>, k: KeyframeView<V, M>) -> Seq<KeyframeView<V, M>> {
    let p = lower_bound(s, k.frame) as int;
    if p < s.len() && s[p].frame == k.frame {
        s.update(p, k)
    } else {
        s.insert(p, k)
    }
}

/// The keyframes of `s` whose frame differs from `f`, in order.
pub open spec fn without_frame<V, M>(s: Seq<KeyframeView<V, M>>, f: i32) -> Seq<KeyframeView<V, M>> {
    s.filter(|k: KeyframeView<V, M>| k.frame != f)
}

/// The keyframes of `s` strictly before frame `f`, in order.
pub open spec fn before_frame<V, M>(s: Seq<KeyframeView<V, M>>, f: i32) -> Seq<KeyframeView<V, M>> {
    s.filter(|k: KeyframeView<V, M>| k.frame < f)
}

/// The keyframes of `s` strictly after frame `f`, in order.
pub open spec fn after_frame<V, M>(s: Seq<KeyframeView<V, M>>, f: i32) -> Seq<KeyframeView<V, M>> {
    s.filter(|k: KeyframeView<V, M>| k.frame > f)
}

/// Whether some keyframe of `s` sits at frame `f`.
pub open spec fn has_frame<V, M>(s: Seq<KeyframeView<V, M>>, f: i32) -> bool {
    exists|i: int| 0 <= i < s.len() && s[i].frame == f
}

/// Every frame of `s` moved by `delta`.
pub open spec fn shifted<V, M>(s: Seq<KeyframeView<V, M>>, delta: i32) -> Seq<KeyframeView<V, M>> {
    s.map_values(|k: KeyframeView<V, M>| KeyframeView { frame: (k.frame + delta) as i32, ..k })
}

/// Moving every frame of `s` by `delta` stays within `i32`.
pub open spec fn shift_fits<V, M>(s: Seq<KeyframeView<V, M>>, delta: i32) -> bool {
    forall|i: int|
        0 <= i < s.len() ==> i32::MIN <= #[trigger] s[i].frame + delta <= i32::MAX
}

proof fn lemma_lower_bound_props<V, M>(s: Seq<KeyframeView<V, M>>, f: i32)
    ensures
        lower_bound(s, f) <= s.len(),
        forall|j: int| 0 <= j < lower_bound(s, f) ==> s[j].frame < f,
        lower_bound(s, f) < s.len() ==> s[lower_bound(s, f) as int].frame >= f,
    decreases s.len(),
{
    if s.len() > 0 && s[0].frame < f {
        lemma_lower_bound_props(s.drop_first(), f);
        assert forall|j: int| 0 <= j < lower_bound(s, f) implies s[j].frame < f by {
            if j > 0 {
                assert(s[j] == s.drop_first()[j - 1]);
            }
        }
    }
}

proof fn lemma_filter_increasing<V, M>(s: Seq<KeyframeView<V, M>>, p: spec_fn(KeyframeView<V, M>) -> bool)
    requires
        frames_increasing(s),
    ensures
        frames_increasing(s.filter(p)),
        forall|i: int|
            0 <= i < s.filter(p).len() ==> #[trigger] s.contains(s.filter(p)[i]),
    decreases s.len(),
{
    reveal(Seq::filter);
    if s.len() > 0 {
        let d = s.drop_last();
        assert(frames_increasing(d));
        lemma_filter_increasing(d, p);
        let r = d.filter(p);
        if p(s.last()) {
            assert forall|i: int| 0 <= i < r.len() implies r[i].frame < s.last().frame by {
                assert(d.contains(r[i]));
                let j = choose|j: int| 0 <= j < d.len() && d[j] == r[i];
                assert(s[j] == d[j]);
            }
            assert forall|i: int| 0 <= i < r.push(s.last()).len() implies #[trigger] s.contains(
                r.push(s.last())[i],
            ) by {
                if i < r.len() {
                    assert(d.contains(r[i]));
                    let j = choose|j: int| 0 <= j < d.len() && d[j] == r[i];
                    assert(s[j] == d[j]);
                } else {
                    assert(s[s.len() - 1] == s.last());
                }
            }
        } else {
            assert forall|i: int| 0 <= i < r.len() implies #[trigger] s.contains(r[i]) by {
                assert(d.contains(r[i]));
                let j = choose|j: int| 0 <= j < d.len() && d[j] == r[i];
                assert(s[j] == d[j]);
            }
        }
    }
}

proof fn lemma_upserted_increasing<V, M>(s: Seq<KeyframeView<V, M>>, k: KeyframeView<V, M>)
    requires
        frames_increasing(s),
    ensures
        frames_increasing(upserted(s, k)),
        has_frame(upserted(s, k), k.frame),
        upserted(s, k).len() == if has_frame(s, k.frame) { s.len() } else { s.len() + 1 },
{
    lemma_lower_bound_props(s, k.frame);
    let p = lower_bound(s, k.frame) as int;
    let r = upserted(s, k);
    if p < s.len() && s[p].frame == k.frame {
        assert(r[p] == k);
    } else {
        assert forall|j: int| p <= j < s.len() implies s[j].frame > k.frame by {
            if j > p {
                assert(s[p].frame < s[j].frame);
            }
        }
        assert(r[p] == k);
        assert(!has_frame(s, k.frame)) by {
            if has_frame(s, k.frame) {
                let j = choose|j: int| 0 <= j < s.len() && s[j].frame == k.frame;
                assert(j >= p);
            }
        }
        assert forall|i: int, j: int| 0 <= i < j < r.len() implies r[i].frame < r[j].frame by {
            if i < p && j < p {
            } else if i < p && j == p {
            } else if i < p {
                assert(r[j] == s[j - 1]);
            } else if i == p {
                assert(r[j] == s[j - 1]);
            } else {
                assert(r[i] == s[i - 1]);
                assert(r[j] == s[j - 1]);
            }
        }
    }
    if p < s.len() && s[p].frame == k.frame {
        assert(has_frame(s, k.frame));
    }
}

/// Index where a keyframe at frame `f` belongs.
fn find_lower_bound<V, M>(s: &Vec<Keyframe<V, M>>, f: i32) -> (p: usize)
    ensures
        p == lower_bound(kview(s@), f),
        p <= s.len(),
{
    let ghost ks = kview(s@);
    let mut i: usize = 0;
    assert(ks.skip(0) =~= ks);
    while i < s.len() && s[i].frame < f
        invariant
            i <= s.len(),
            ks == kview(s@),
            lower_bound(ks, f) == i + lower_bound(ks.skip(i as int), f),
        decreases s.len() - i,
    {
        assert(ks.skip(i as int)[0] == ks[i as int]);
        assert(ks.skip(i as int).drop_first() =~= ks.skip(i + 1));
        i += 1;
    }
    if i < s.len() {
        assert(ks.skip(i as int)[0] == ks[i as int]);
    }
    i
}

/// Puts `k` into the increasing track `track` at its frame.
fn upsert_keyframe<V, M>(track: &mut Vec<Keyframe<V, M>>, k: Keyframe<V, M>)
    requires
        frames_increasing(kview(old(track)@)),
    ensures
        kview(final(track)@) == upserted(kview(old(track)@), k@),
        frames_increasing(kview(final(track)@)),
{
    let ghost s = kview(track@);
    proof {
        lemma_upserted_increasing(s, k@);
    }
    let p = find_lower_bound(track, k.frame);
    if p < track.len() && track[p].frame == k.frame {
        let ghost t0 = track@;
        track.remove(p);
        track.insert(p, k);
        assert(track@ =~= t0.update(p as int, k));
        assert(kview(track@) =~= s.update(p as int, k@));
    } else {
        let ghost t0 = track@;
        track.insert(p, k);
        assert(kview(track@) =~= s.insert(p as int, k@));
    }
}

/// The mode of a keyframe set at `f`: that of the keyframe already there,
/// or `mode` for a new one.
pub open spec fn kept_mode<V, M>(s: Seq<KeyframeView<V, M>>, f: i32, mode: M) -> M {
    let p = lower_bound(s, f) as int;
    if p < s.len() && s[p].frame == f {
        s[p].apply_mode
    } else {
        mode
    }
}

/// Sets the keyframe at `frame`: one already there gets the new value,
/// engine, payload and edit number and keeps its mode; otherwise a new
/// keyframe in mode `apply_mode` is inserted in frame order.
fn set_track_keyframe<V, M>(
    track: &mut Vec<Keyframe<V, M>>,
    frame: i32,
    value: V,
    engine_id: String,
    engine_payload: Vec<u8>,
    edit_seq: u64,
    apply_mode: M,
)
    requires
        frames_increasing(kview(old(track)@)),
    ensures
        kview(final(track)@) == upserted(
            kview(old(track)@),
            KeyframeView {
                frame,
                value,
                engine_id: engine_id@,
                engine_payload: engine_payload@,
                edit_seq,
                apply_mode: kept_mode(kview(old(track)@), frame, apply_mode),
            },
        ),
        frames_increasing(kview(final(track)@)),
{
    let ghost s = kview(track@);
    let ghost kv = KeyframeView {
        frame,
        value,
        engine_id: engine_id@,
        engine_payload: engine_payload@,
        edit_seq,
        apply_mode: kept_mode(s, frame, apply_mode),
    };
    proof {
        lemma_upserted_increasing(s, kv);
    }
    let p = find_lower_bound(track, frame);
    if p < track.len() && track[p].frame == frame {
        let ghost t0 = track@;
        let old_k = track.remove(p);
        assert(old_k@ == s[p as int]);
        let k = Keyframe { frame, value, engine_id, engine_payload, edit_seq, apply_mode: old_k.apply_mode };
        track.insert(p, k);
        assert(track@ =~= t0.update(p as int, k));
        assert(kview(track@) =~= s.update(p as int, kv));
    } else {
        let k = Keyframe { frame, value, engine_id, engine_payload, edit_seq, apply_mode };
        track.insert(p, k);
        assert(kview(track@) =~= s.insert(p as int, kv));
    }
}

/// Removes the keyframes at frame `f`.
fn remove_frame<V, M>(track: Vec<Keyframe<V, M>>, f: i32) -> (r: Vec<Keyframe<V, M>>)
    ensures
        kview(r@) == without_frame(kview(track@), f),
{
    let ghost s = kview(track@);
    let mut rest = track;
    let mut out: Vec<Keyframe<V, M>> = Vec::new();
    let ghost mut i: int = 0;
    while rest.len() > 0
        invariant
            0 <= i <= s.len(),
            kview(rest@) == s.skip(i),
            kview(out@) == without_frame(s.take(i), f),
        decreases rest.len(),
    {
        let ghost r0 = rest@;
        assert(kview(r0).len() == r0.len());
        assert(i < s.len());
        assert(kview(r0)[0] == s.skip(i)[0]);
        assert(s.skip(i)[0] == s[i]);
        assert(kview(r0)[0] == r0[0]@);
        let k = rest.remove(0);
        proof {
            assert(k@ == s[i]);
            assert(s.take(i + 1).drop_last() =~= s.take(i));
            assert(s.take(i + 1).last() == s[i]);
            reveal(Seq::filter);
        }
        if k.frame != f {
            out.push(k);
        }
        proof {
            assert(kview(out@) =~= without_frame(s.take(i + 1), f));
            assert forall|j: int| 0 <= j < rest@.len() implies #[trigger] kview(rest@)[j] == s.skip(
                i + 1,
            )[j] by {
                assert(rest@[j] == r0[j + 1]);
                assert(kview(r0)[j + 1] == s.skip(i)[j + 1]);
            }
            assert(kview(rest@) =~= s.skip(i + 1));
            i = i + 1;
        }
    }
    assert(s.take(i) =~= s);
    out
}

/// Splits an increasing track into the keyframes before and after `f`.
fn split_track<V, M>(track: Vec<Keyframe<V, M>>, f: i32) -> (r: (Vec<Keyframe<V, M>>, Vec<Keyframe<V, M>>))
    ensures
        kview(r.0@) == before_frame(kview(track@), f),
        kview(r.1@) == after_frame(kview(track@), f),
{
    let ghost s = kview(track@);
    let mut rest = track;
    let mut lo: Vec<Keyframe<V, M>> = Vec::new();
    let mut hi: Vec<Keyframe<V, M>> = Vec::new();
    let ghost mut i: int = 0;
    while rest.len() > 0
        invariant
            0 <= i <= s.len(),
            kview(rest@) == s.skip(i),
            kview(lo@) == before_frame(s.take(i), f),
            kview(hi@) == after_frame(s.take(i), f),
        decreases rest.len(),
    {
        let ghost r0 = rest@;
        assert(kview(r0).len() == r0.len());
        assert(i < s.len());
        assert(kview(r0)[0] == s.skip(i)[0]);
        assert(s.skip(i)[0] == s[i]);
        assert(kview(r0)[0] == r0[0]@);
        let k = rest.remove(0);
        proof {
            assert(k@ == s[i]);
            assert(s.take(i + 1).drop_last() =~= s.take(i));
            assert(s.take(i + 1).last() == s[i]);
            reveal(Seq::filter);
        }
        if k.frame < f {
            lo.push(k);
        } else if k.frame > f {
            hi.push(k);
        }
        proof {
            assert(kview(lo@) =~= before_frame(s.take(i + 1), f));
            assert(kview(hi@) =~= after_frame(s.take(i + 1), f));
            assert forall|j: int| 0 <= j < rest@.len() implies #[trigger] kview(rest@)[j] == s.skip(
                i + 1,
            )[j] by {
                assert(rest@[j] == r0[j + 1]);
                assert(kview(r0)[j + 1] == s.skip(i)[j + 1]);
            }
            assert(kview(rest@) =~= s.skip(i + 1));
            i = i + 1;
        }
    }
    assert(s.take(i) =~= s);
    (lo, hi)
}

proof fn lemma_filter_all<V, M>(s: Seq<KeyframeView<V, M>>, p: spec_fn(KeyframeView<V, M>) -> bool)
    requires
        forall|i: int| 0 <= i < s.len() ==> p(#[trigger] s[i]),
    ensures
        s.filter(p) == s,
    decreases s.len(),
{
    reveal(Seq::filter);
    if s.len() > 0 {
        lemma_filter_all(s.drop_last(), p);
        assert(s.drop_last().push(s.last()) =~= s);
    }
}

/// In an increasing track, removing the keyframe at `f` by position is the
/// same as filtering frame `f` out.
proof fn lemma_remove_is_without<V, M>(s: Seq<KeyframeView<V, M>>, i: int, f: i32)
    requires
        frames_increasing(s),
        0 <= i < s.len(),
        s[i].frame == f,
    ensures
        s.remove(i) == without_frame(s, f),
    decreases s.len(),
{
    reveal(Seq::filter);
    let d = s.drop_last();
    if i == s.len() - 1 {
        assert forall|j: int| 0 <= j < d.len() implies (|k: KeyframeView<V, M>| k.frame != f)(
            #[trigger] d[j],
        ) by {
            assert(s[j].frame < s[i].frame);
        }
        lemma_filter_all(d, |k: KeyframeView<V, M>| k.frame != f);
        assert(s.remove(i) =~= d);
    } else {
        lemma_remove_is_without(d, i, f);
        assert(s.last().frame > f) by {
            assert(s[i].frame < s[s.len() - 1].frame);
        }
        assert(s.remove(i) =~= d.remove(i).push(s.last()));
    }
}

/// Index of the keyframe at frame `f`, if any.
fn find_frame<V, M>(s: &Vec<Keyframe<V, M>>, f: i32) -> (r: Option<usize>)
    ensures
        r matches Some(i) ==> i < s.len() && s@[i as int].frame == f,
        r is None ==> !has_frame(kview(s@), f),
{
    let mut i: usize = 0;
    while i < s.len()
        invariant
            i <= s.len(),
            forall|j: int| 0 <= j < i ==> s@[j].frame != f,
        decreases s.len() - i,
    {
        if s[i].frame == f {
            return Some(i);
        }
        i += 1;
    }
    assert(!has_frame(kview(s@), f)) by {
        if has_frame(kview(s@), f) {
            let j = choose|j: int| 0 <= j < kview(s@).len() && kview(s@)[j].frame == f;
            assert(s@[j].frame == f);
        }
    }
    None
}

/// The keyframe of `s` at frame `f` (meaningful when there is one).
pub open spec fn at_frame<V, M>(s: Seq<KeyframeView<V, M>>, f: i32) -> KeyframeView<V, M> {
    s[choose|i: int| 0 <= i < s.len() && s[i].frame == f]
}

/// The track, or the empty track when `key` has none.
pub open spec fn track_or_empty<V, M>(m: Map<Seq<char>, Seq<KeyframeView<V, M>>>, key: Seq<char>) -> Seq<
    KeyframeView<V, M>,
> {
    if m.contains_key(key) {
        m[key]
    } else {
        Seq::empty()
    }
}

/// The tracks after setting keyframe `k` on `key`.
pub open spec fn set_result<V, M>(
    m: Map<Seq<char>, Seq<KeyframeView<V, M>>>,
    key: Seq<char>,
    k: KeyframeView<V, M>,
) -> Map<Seq<char>, Seq<KeyframeView<V, M>>> {
    m.insert(key, upserted(track_or_empty(m, key), k))
}

/// The tracks after removing the keyframe of `key` at frame `f`; a track
/// left empty disappears.
pub open spec fn remove_result<V, M>(
    m: Map<Seq<char>, Seq<KeyframeView<V, M>>>,
    key: Seq<char>,
    f: i32,
) -> Map<Seq<char>, Seq<KeyframeView<V, M>>> {
    if !m.contains_key(key) {
        m
    } else if without_frame(m[key], f).len() == 0 {
        m.remove(key)
    } else {
        m.insert(key, without_frame(m[key], f))
    }
}

/// Animated parameters: for each parameter key, its keyframes in
/// increasing frame order.
pub struct KeyframeTracks<V, M> {
    tracks: StrMap<Vec<Keyframe<V, M>>>,
}

impl<V, M> View for KeyframeTracks<V, M> {
    type V = Map<Seq<char>, Seq<KeyframeView<V, M>>>;

    closed spec fn view(&self) -> Map<Seq<char>, Seq<KeyframeView<V, M>>> {
        self.tracks@.map_values(|t: Vec<Keyframe<V, M>>| kview(t@))
    }
}

impl<V, M> KeyframeTracks<V, M> {
    /// Keys are distinct and every track has strictly increasing frames.
    pub closed spec fn wf(&self) -> bool {
        &&& self.tracks.wf()
        &&& forall|k: Seq<char>| #[trigger]
            self.tracks@.contains_key(k) ==> frames_increasing(kview(self.tracks@[k]@))
    }

    /// Every track of well-formed tracks has strictly increasing frames;
    /// every operation keeps this.
    pub proof fn law_tracks_in_frame_order(&self)
        requires
            self.wf(),
        ensures
            forall|k: Seq<char>| #[trigger]
                self@.contains_key(k) ==> frames_increasing(self@[k]),
    {
    }

    /// No tracks.
    pub fn new() -> (t: Self)
        ensures
            t.wf(),
            t@ == Map::<Seq<char>, Seq<KeyframeView<V, M>>>::empty(),
    {
        let t = KeyframeTracks { tracks: StrMap::new() };
        assert(t@ =~= Map::<Seq<char>, Seq<KeyframeView<V, M>>>::empty());
        t
    }

    /// The keyframes of `key`, if it has a track.
    pub fn track(&self, key: &str) -> (r: Option<&Vec<Keyframe<V, M>>>)
        requires
            self.wf(),
        ensures
            r is Some == self@.contains_key(key@),
            r matches Some(t) ==> kview(t@) == self@[key@],
    {
        self.tracks.get(key)
    }

    /// Sets a keyframe of `key` at `frame`: one already there gets the new
    /// value, engine, payload and edit number and keeps its mode; otherwise
    /// a keyframe in mode `apply_mode` is inserted in frame order (creating
    /// the track if needed).
    pub fn set_keyframe(
        &mut self,
        key: &str,
        frame: i32,
        value: V,
        engine_id: String,
        engine_payload: Vec<u8>,
        edit_seq: u64,
        apply_mode: M,
    )
        requires
            old(self).wf(),
        ensures
            final(self).wf(),
            final(self)@ == set_result(
                old(self)@,
                key@,
                KeyframeView {
                    frame,
                    value,
                    engine_id: engine_id@,
                    engine_payload: engine_payload@,
                    edit_seq,
                    apply_mode: kept_mode(track_or_empty(old(self)@, key@), frame, apply_mode),
                },
            ),
    {
        let ghost m0 = self.tracks@;
        let mut track = match self.tracks.remove(key) {
            Some(t) => t,
            None => Vec::new(),
        };
        assert(kview(track@) == track_or_empty(old(self)@, key@)) by {
            if !m0.contains_key(key@) {
                assert(kview(track@) =~= Seq::<KeyframeView<V, M>>::empty());
            }
        }
        set_track_keyframe(&mut track, frame, value, engine_id, engine_payload, edit_seq, apply_mode);
        let ghost t = track;
        self.tracks.insert(key.to_owned(), track);
        assert(self.tracks@ == m0.remove(key@).insert(key@, t));
        assert(self@ =~= old(self)@.insert(key@, kview(t@)));
    }

    /// Removes the keyframe of `key` at `frame`; a track left empty is
    /// removed.
    pub fn remove_keyframe(&mut self, key: &str, frame: i32)
        requires
            old(self).wf(),
        ensures
            final(self).wf(),
            final(self)@ == remove_result(old(self)@, key@, frame),
    {
        let ghost m0 = self.tracks@;
        match self.tracks.remove(key) {
            Some(t) => {
                let ghost s = kview(t@);
                let t2 = remove_frame(t, frame);
                proof {
                    lemma_filter_increasing(s, |k: KeyframeView<V, M>| k.frame != frame);
                }
                if t2.len() > 0 {
                    let ghost t2g = t2;
                    self.tracks.insert(key.to_owned(), t2);
                    assert(self@ =~= old(self)@.insert(key@, kview(t2g@)));
                } else {
                    assert(self@ =~= old(self)@.remove(key@));
                }
            },
            None => {
                assert(self@ =~= old(self)@);
            },
        }
    }

    /// Moves the keyframe of `key` at `old_frame` to `new_frame`. Fails
    /// (changing nothing) when `key` has no track, when another keyframe
    /// already sits at `new_frame`, or when none sits at `old_frame`;
    /// moving a frame onto itself succeeds without change.
    pub fn move_keyframe(&mut self, key: &str, old_frame: i32, new_frame: i32) -> (r: bool)
        requires
            old(self).wf(),
        ensures
            final(self).wf(),
            r == (old(self)@.contains_key(key@) && (old_frame == new_frame || (!has_frame(
                old(self)@[key@],
                new_frame,
            ) && has_frame(old(self)@[key@], old_frame)))),
            !r || old_frame == new_frame ==> final(self)@ == old(self)@,
            r && old_frame != new_frame ==> final(self)@ == old(self)@.insert(
                key@,
                upserted(
                    without_frame(old(self)@[key@], old_frame),
                    KeyframeView { frame: new_frame, ..at_frame(old(self)@[key@], old_frame) },
                ),
            ),
    {
        let ghost m0 = self.tracks@;
        let mut track = match self.tracks.remove(key) {
            Some(t) => t,
            None => {
                return false;
            },
        };
        let ghost t0 = track;
        let ghost s = kview(track@);
        assert(s == old(self)@[key@]);
        if old_frame == new_frame {
            self.tracks.insert(key.to_owned(), track);
            assert(self.tracks@ =~= m0);
            return true;
        }
        match find_frame(&track, new_frame) {
            Some(j) => {
                assert(s[j as int].frame == new_frame);
                self.tracks.insert(key.to_owned(), track);
                assert(self.tracks@ =~= m0);
                assert(has_frame(s, new_frame));
                return false;
            },
            None => {},
        }
        let i = match find_frame(&track, old_frame) {
            Some(i) => i,
            None => {
                self.tracks.insert(key.to_owned(), track);
                assert(self.tracks@ =~= m0);
                return false;
            },
        };
        assert(s[i as int].frame == old_frame);
        let mut kf = track.remove(i);
        proof {
            assert(has_frame(s, old_frame));
            let j = choose|j: int| 0 <= j < s.len() && s[j].frame == old_frame;
            if j != i {
                if j < i {
                    assert(s[j].frame < s[i as int].frame);
                } else {
                    assert(s[i as int].frame < s[j].frame);
                }
            }
            assert(kf@ == at_frame(s, old_frame));
            lemma_remove_is_without(s, i as int, old_frame);
            assert(kview(track@) =~= s.remove(i as int));
            lemma_filter_increasing(s, |k: KeyframeView<V, M>| k.frame != old_frame);
        }
        kf.frame = new_frame;
        upsert_keyframe(&mut track, kf);
        let ghost t = track;
        self.tracks.insert(key.to_owned(), track);
        assert(self.tracks@ == m0.remove(key@).insert(key@, t));
        assert(self@ =~= old(self)@.insert(key@, kview(t@)));
        true
    }

    /// Keeps keyframes when an object's time range changes; the tracks are
    /// left exactly as they are.
    pub fn clamp_to_range(&mut self, old_start: i32, old_end: i32, new_start: i32, new_end: i32)
        requires
            old(self).wf(),
        ensures
            final(self).wf(),
            final(self)@ == old(self)@,
    {
    }

    /// Moves every keyframe of every track by `delta` frames.
    pub fn shift(&mut self, delta: i32)
        requires
            old(self).wf(),
            forall|k: Seq<char>| #[trigger]
                old(self)@.contains_key(k) ==> shift_fits(old(self)@[k], delta),
        ensures
            final(self).wf(),
            final(self)@ == old(self)@.map_values(|t: Seq<KeyframeView<V, M>>| shifted(t, delta)),
    {
        let ghost m0 = self@;
        let mut src: StrMap<Vec<Keyframe<V, M>>> = StrMap::new();
        std::mem::swap(&mut src, &mut self.tracks);
        let mut dst: StrMap<Vec<Keyframe<V, M>>> = StrMap::new();
        while src.len() > 0
            invariant
                src.wf(),
                dst.wf(),
                forall|k: Seq<char>| #[trigger]
                    src@.contains_key(k) ==> m0.contains_key(k) && kview(src@[k]@) == m0[k],
                forall|k: Seq<char>| #[trigger]
                    dst@.contains_key(k) ==> m0.contains_key(k) && !src@.contains_key(k)
                        && kview(dst@[k]@) == shifted(m0[k], delta) && frames_increasing(
                        kview(dst@[k]@),
                    ),
                forall|k: Seq<char>| #[trigger]
                    m0.contains_key(k) ==> src@.contains_key(k) || dst@.contains_key(k),
                forall|k: Seq<char>| #[trigger]
                    m0.contains_key(k) ==> frames_increasing(m0[k]) && shift_fits(m0[k], delta),
            decreases src.entries_view().len(),
        {
            proof {
                lemma_map_of_finite(src.entries_view());
                src.lemma_view();
            }
            let e = src.pop_entry();
            match e {
                Some((key, t)) => {
                    let ghost s = kview(t@);
                    let t2 = shift_track(t, delta);
                    proof {
                        assert forall|a: int, b: int|
                            0 <= a < b < kview(t2@).len() implies kview(t2@)[a].frame < kview(
                            t2@,
                        )[b].frame by {
                            assert(s[a].frame < s[b].frame);
                        }
                    }
                    dst.insert(key, t2);
                },
                None => {},
            }
        }
        proof {
            lemma_map_of_finite(src.entries_view());
            src.lemma_view();
        }
        self.tracks = dst;
        assert forall|k: Seq<char>| m0.contains_key(k) implies self.tracks@.contains_key(k) by {
            if src@.contains_key(k) {
                assert(src@.dom().contains(k));
            }
        }
        assert(self@ =~= m0.map_values(|t: Seq<KeyframeView<V, M>>| shifted(t, delta)));
    }

    /// Splits the tracks at `split_frame`: this object keeps the keyframes
    /// before it and the returned tracks get those after it (tracks left
    /// empty are dropped; a keyframe exactly at the split is dropped).
    pub fn split_at(&mut self, split_frame: i32) -> (second: Self)
        requires
            old(self).wf(),
        ensures
            final(self).wf(),
            second.wf(),
            final(self)@ == Map::new(
                |k: Seq<char>|
                    old(self)@.contains_key(k) && before_frame(old(self)@[k], split_frame).len()
                        > 0,
                |k: Seq<char>| before_frame(old(self)@[k], split_frame),
            ),
            second@ == Map::new(
                |k: Seq<char>|
                    old(self)@.contains_key(k) && after_frame(old(self)@[k], split_frame).len()
                        > 0,
                |k: Seq<char>| after_frame(old(self)@[k], split_frame),
            ),
    {
        let ghost m0 = self@;
        let mut src: StrMap<Vec<Keyframe<V, M>>> = StrMap::new();
        std::mem::swap(&mut src, &mut self.tracks);
        let mut lo_map: StrMap<Vec<Keyframe<V, M>>> = StrMap::new();
        let mut hi_map: StrMap<Vec<Keyframe<V, M>>> = StrMap::new();
        while src.len() > 0
            invariant
                src.wf(),
                lo_map.wf(),
                hi_map.wf(),
                forall|k: Seq<char>| #[trigger]
                    src@.contains_key(k) ==> m0.contains_key(k) && kview(src@[k]@) == m0[k],
                forall|k: Seq<char>| #[trigger]
                    lo_map@.contains_key(k) ==> m0.contains_key(k) && !src@.contains_key(k)
                        && kview(lo_map@[k]@) == before_frame(m0[k], split_frame)
                        && kview(lo_map@[k]@).len() > 0 && frames_increasing(kview(lo_map@[k]@)),
                forall|k: Seq<char>| #[trigger]
                    hi_map@.contains_key(k) ==> m0.contains_key(k) && !src@.contains_key(k)
                        && kview(hi_map@[k]@) == after_frame(m0[k], split_frame)
                        && kview(hi_map@[k]@).len() > 0 && frames_increasing(kview(hi_map@[k]@)),
                forall|k: Seq<char>| #[trigger]
                    m0.contains_key(k) && !src@.contains_key(k) ==> (lo_map@.contains_key(k)
                        || before_frame(m0[k], split_frame).len() == 0) && (hi_map@.contains_key(k)
                        || after_frame(m0[k], split_frame).len() == 0),
                forall|k: Seq<char>| #[trigger]
                    m0.contains_key(k) ==> frames_increasing(m0[k]),
            decreases src.entries_view().len(),
        {
            proof {
                lemma_map_of_finite(src.entries_view());
                src.lemma_view();
            }
            let e = src.pop_entry();
            match e {
                Some((key, t)) => {
                    let ghost s = kview(t@);
                    let (lo, hi) = split_track(t, split_frame);
                    proof {
                        lemma_filter_increasing(s, |k: KeyframeView<V, M>| k.frame < split_frame);
                        lemma_filter_increasing(s, |k: KeyframeView<V, M>| k.frame > split_frame);
                    }
                    if lo.len() > 0 {
                        lo_map.insert(key.clone(), lo);
                    }
                    if hi.len() > 0 {
                        hi_map.insert(key, hi);
                    }
                },
                None => {},
            }
        }
        proof {
            lemma_map_of_finite(src.entries_view());
            src.lemma_view();
        }
        self.tracks = lo_map;
        let second = KeyframeTracks { tracks: hi_map };
        assert forall|k: Seq<char>| m0.contains_key(k) implies !src@.contains_key(k) by {
            if src@.contains_key(k) {
                assert(src@.dom().contains(k));
            }
        }
        assert(self@ =~= Map::new(
            |k: Seq<char>| m0.contains_key(k) && before_frame(m0[k], split_frame).len() > 0,
            |k: Seq<char>| before_frame(m0[k], split_frame),
        ));
        assert(second@ =~= Map::new(
            |k: Seq<char>| m0.contains_key(k) && after_frame(m0[k], split_frame).len() > 0,
            |k: Seq<char>| after_frame(m0[k], split_frame),
        ));
        second
    }
}

/// Moves every keyframe of a track by `delta` frames.
fn shift_track<V, M>(track: Vec<Keyframe<V, M>>, delta: i32) -> (r: Vec<Keyframe<V, M>>)
    requires
        shift_fits(kview(track@), delta),
    ensures
        kview(r@) == shifted(kview(track@), delta),
{
    let ghost s = kview(track@);
    let mut rest = track;
    let mut out: Vec<Keyframe<V, M>> = Vec::new();
    let ghost mut i: int = 0;
    while rest.len() > 0
        invariant
            0 <= i <= s.len(),
            shift_fits(s, delta),
            kview(rest@) == s.skip(i),
            kview(out@) == shifted(s.take(i), delta),
        decreases rest.len(),
    {
        let ghost r0 = rest@;
        assert(kview(r0).len() == r0.len());
        assert(i < s.len());
        assert(kview(r0)[0] == s.skip(i)[0]);
        assert(s.skip(i)[0] == s[i]);
        assert(kview(r0)[0] == r0[0]@);
        let mut k = rest.remove(0);
        assert(k@ == s[i]);
        assert(i32::MIN <= s[i].frame + delta <= i32::MAX);
        k.frame = k.frame + delta;
        let ghost o0 = out@;
        assert(kview(o0).len() == o0.len());
        assert(s.take(i).len() == i);
        assert(shifted(s.take(i), delta).len() == i);
        out.push(k);
        proof {
            assert forall|j: int| 0 <= j < i + 1 implies #[trigger] kview(out@)[j] == shifted(
                s.take(i + 1),
                delta,
            )[j] by {
                assert(o0.len() == i);
                if j < i {
                    assert(out@[j] == o0[j]);
                    assert(kview(o0)[j] == shifted(s.take(i), delta)[j]);
                    assert(s.take(i)[j] == s.take(i + 1)[j]);
                } else {
                    assert(out@[j] == k);
                    assert(s.take(i + 1)[j] == s[i]);
                    assert(k.frame == s[i].frame + delta);
                }
            }
            assert(kview(out@) =~= shifted(s.take(i + 1), delta));
            assert forall|j: int| 0 <= j < rest@.len() implies #[trigger] kview(rest@)[j] == s.skip(
                i + 1,
            )[j] by {
                assert(rest@[j] == r0[j + 1]);
                assert(kview(r0)[j + 1] == s.skip(i)[j + 1]);
            }
            assert(kview(rest@) =~= s.skip(i + 1));
            i = i + 1;
        }
    }
    assert(s.take(i) =~= s);
    out
}

/// The time-remap curve of an object: keyframes mapping layer frames to
/// source frames, or a frozen source frame.
pub struct TimeRemap<M> {
    pub keyframes: Vec<Keyframe<i32, M>>,
    pub freeze_frame: Option<i32>,
}

/// The curve after setting the key at `frame`: an existing key keeps its
/// payload and gets the new value, engine and edit number; otherwise a new
/// key with an empty payload and mode `apply_mode` is inserted in frame
/// order.
pub open spec fn remap_set_result<M>(
    s: Seq<KeyframeView<i32, M>>,
    frame: i32,
    value: i32,
    engine_id: Seq<char>,
    edit_seq: u64,
    apply_mode: M,
) -> Seq<KeyframeView<i32, M>> {
    let p = lower_bound(s, frame) as int;
    if p < s.len() && s[p].frame == frame {
        s.update(p, KeyframeView { value, engine_id, edit_seq, ..s[p] })
    } else {
        s.insert(
            p,
            KeyframeView { frame, value, engine_id, engine_payload: Seq::empty(), edit_seq, apply_mode },
        )
    }
}

impl<M> TimeRemap<M> {
    /// No keys and no freeze frame.
    pub fn new() -> (r: Self)
        ensures
            r.keyframes@.len() == 0,
            r.freeze_frame is None,
    {
        TimeRemap { keyframes: Vec::new(), freeze_frame: None }
    }

    /// The source frame shown at a layer frame: the freeze frame when set;
    /// `fallback` when there are no keys; otherwise `eased`, the curve's
    /// eased value at that layer frame rounded to a frame (computed by the
    /// easing engine named by the first key), or `fallback` when that engine
    /// is not available.
    pub fn resolve(&self, fallback: i32, eased: Option<i32>) -> (r: i32)
        ensures
            r == match self.freeze_frame {
                Some(f) => f,
                None => if self.keyframes@.len() == 0 {
                    fallback
                } else {
                    match eased {
                        Some(v) => v,
                        None => fallback,
                    }
                },
            },
    {
        if let Some(frame) = self.freeze_frame {
            return frame;
        }
        if self.keyframes.len() == 0 {
            return fallback;
        }
        match eased {
            Some(v) => v,
            None => fallback,
        }
    }

    /// Sets the key at `frame` (see `remap_set_result`).
    pub fn set_key(&mut self, frame: i32, value: i32, engine_id: String, edit_seq: u64, apply_mode: M)
        requires
            frames_increasing(kview(old(self).keyframes@)),
        ensures
            frames_increasing(kview(final(self).keyframes@)),
            kview(final(self).keyframes@) == remap_set_result(
                kview(old(self).keyframes@),
                frame,
                value,
                engine_id@,
                edit_seq,
                apply_mode,
            ),
            final(self).freeze_frame == old(self).freeze_frame,
    {
        let ghost s = kview(self.keyframes@);
        let p = find_lower_bound(&self.keyframes, frame);
        proof {
            lemma_lower_bound_props(s, frame);
        }
        if p < self.keyframes.len() && self.keyframes[p].frame == frame {
            let ghost t0 = self.keyframes@;
            let mut k = self.keyframes.remove(p);
            k.value = value;
            k.engine_id = engine_id;
            k.edit_seq = edit_seq;
            self.keyframes.insert(p, k);
            assert(kview(self.keyframes@) =~= remap_set_result(s, frame, value, engine_id@, edit_seq, apply_mode));
        } else {
            let k = Keyframe { frame, value, engine_id, engine_payload: Vec::new(), edit_seq, apply_mode };
            self.keyframes.insert(p, k);
            assert(kview(self.keyframes@) =~= s.insert(p as int, k@));
            proof {
                lemma_upserted_increasing(s, k@);
            }
        }
    }

    /// Removes every key at `frame`.
    pub fn remove_key(&mut self, frame: i32)
        ensures
            kview(final(self).keyframes@) == without_frame(kview(old(self).keyframes@), frame),
            frames_increasing(kview(old(self).keyframes@)) ==> frames_increasing(
                kview(final(self).keyframes@),
            ),
            final(self).freeze_frame == old(self).freeze_frame,
    {
        let mut ks: Vec<Keyframe<i32, M>> = Vec::new();
        std::mem::swap(&mut ks, &mut self.keyframes);
        let ghost s = kview(ks@);
        self.keyframes = remove_frame(ks, frame);
        proof {
            if frames_increasing(s) {
                lemma_filter_increasing(s, |k: KeyframeView<i32, M>| k.frame != frame);
            }
        }
    }
}

proof fn lemma_filter_none<V, M>(s: Seq<KeyframeView<V, M>>, p: spec_fn(KeyframeView<V, M>) -> bool)
    requires
        forall|i: int| 0 <= i < s.len() ==> !p(#[trigger] s[i]),
    ensures
        s.filter(p).len() == 0,
    decreases s.len(),
{
    reveal(Seq::filter);
    if s.len() > 0 {
        lemma_filter_none(s.drop_last(), p);
    }
}

proof fn lemma_without_insert<V, M>(s: Seq<KeyframeView<V, M>>, p: int, k: KeyframeView<V, M>)
    requires
        0 <= p <= s.len(),
        !has_frame(s, k.frame),
    ensures
        without_frame(s.insert(p, k), k.frame) == s,
{
    let pred = |x: KeyframeView<V, M>| x.frame != k.frame;
    assert(s.insert(p, k) =~= s.take(p) + seq![k] + s.skip(p));
    broadcast use Seq::filter_distributes_over_add;
    assert forall|i: int| 0 <= i < s.take(p).len() implies pred(#[trigger] s.take(p)[i]) by {
        assert(s.take(p)[i] == s[i]);
    }
    assert forall|i: int| 0 <= i < s.skip(p).len() implies pred(#[trigger] s.skip(p)[i]) by {
        assert(s.skip(p)[i] == s[p + i]);
    }
    lemma_filter_all(s.take(p), pred);
    lemma_filter_all(s.skip(p), pred);
    lemma_filter_none(seq![k], pred);
    assert(s.take(p) + s.skip(p) =~= s);
    assert(seq![k].filter(pred) =~= Seq::<KeyframeView<V, M>>::empty());
    assert((s.take(p) + seq![k] + s.skip(p)).filter(pred) == s.take(p).filter(pred) + seq![k].filter(pred) + s.skip(p).filter(pred));
}

/// Setting a keyframe always leaves the track in strictly increasing frame
/// order with a keyframe at the set frame; the track grows by one exactly
/// when no keyframe was at that frame.
pub proof fn law_set_keeps_order<V, M>(track: Seq<KeyframeView<V, M>>, k: KeyframeView<V, M>)
    requires
        frames_increasing(track),
    ensures
        frames_increasing(upserted(track, k)),
        has_frame(upserted(track, k), k.frame),
        upserted(track, k).len() == if has_frame(track, k.frame) {
            track.len()
        } else {
            track.len() + 1
        },
{
    lemma_upserted_increasing(track, k);
}

/// Setting a keyframe at a frame that had none and then removing the
/// keyframe at that frame gives back the tracks as they were.
pub proof fn law_set_then_remove<V, M>(
    m: Map<Seq<char>, Seq<KeyframeView<V, M>>>,
    key: Seq<char>,
    k: KeyframeView<V, M>,
)
    requires
        !has_frame(track_or_empty(m, key), k.frame),
        m.contains_key(key) ==> m[key].len() > 0,
    ensures
        remove_result(set_result(m, key, k), key, k.frame) == m,
{
    let t = track_or_empty(m, key);
    let p = lower_bound(t, k.frame) as int;
    lemma_lower_bound_props(t, k.frame);
    if p < t.len() && t[p].frame == k.frame {
        assert(has_frame(t, k.frame));
    }
    assert(upserted(t, k) == t.insert(p, k));
    lemma_without_insert(t, p, k);
    let m1 = set_result(m, key, k);
    if m.contains_key(key) {
        assert(remove_result(m1, key, k.frame) =~= m);
    } else {
        assert(t.len() == 0);
        assert(remove_result(m1, key, k.frame) =~= m);
    }
}

/// Shifting every keyframe by `delta` and then by `-delta` gives back the
/// track as it was.
pub proof fn law_shift_roundtrip<V, M>(track: Seq<KeyframeView<V, M>>, delta: i32)
    requires
        shift_fits(track, delta),
        delta != i32::MIN,
    ensures
        shift_fits(shifted(track, delta), (-delta) as i32),
        shifted(shifted(track, delta), (-delta) as i32) == track,
{
    assert(shifted(shifted(track, delta), (-delta) as i32) =~= track);
}

/// Splitting an increasing track at `f` parts its keyframes: those before
/// `f` followed by those after `f` are exactly the keyframes not at `f`.
pub proof fn law_split_partitions<V, M>(track: Seq<KeyframeView<V, M>>, f: i32)
    requires
        frames_increasing(track),
    ensures
        before_frame(track, f) + after_frame(track, f) == without_frame(track, f),
    decreases track.len(),
{
    reveal(Seq::filter);
    if track.len() > 0 {
        let d = track.drop_last();
        let last = track.last();
        assert(frames_increasing(d));
        law_split_partitions(d, f);
        if last.frame <= f {
            assert forall|i: int| 0 <= i < d.len() implies !(|x: KeyframeView<V, M>| x.frame > f)(
                #[trigger] d[i],
            ) by {
                assert(track[i].frame < track[track.len() - 1].frame);
            }
            lemma_filter_none(d, |x: KeyframeView<V, M>| x.frame > f);
            assert(after_frame(d, f) =~= Seq::<KeyframeView<V, M>>::empty());
            if last.frame < f {
                assert(before_frame(track, f) + after_frame(track, f) =~= (before_frame(d, f)
                    + after_frame(d, f)).push(last));
            } else {
                assert(before_frame(track, f) + after_frame(track, f) =~= before_frame(d, f)
                    + after_frame(d, f));
            }
        } else {
            assert(before_frame(track, f) + after_frame(track, f) =~= (before_frame(d, f)
                + after_frame(d, f)).push(last));
        }
    }
}

/// Setting a time-remap key at a frame that had none and then removing the
/// key at that frame gives back the curve as it was.
pub proof fn law_remap_set_then_remove<M>(
    s: Seq<KeyframeView<i32, M>>,
    frame: i32,
    value: i32,
    engine_id: Seq<char>,
    edit_seq: u64,
    apply_mode: M,
)
    requires
        !has_frame(s, frame),
    ensures
        without_frame(remap_set_result(s, frame, value, engine_id, edit_seq, apply_mode), frame) == s,
{
    let p = lower_bound(s, frame) as int;
    lemma_lower_bound_props(s, frame);
    if p < s.len() && s[p].frame == frame {
        assert(has_frame(s, frame));
    }
    let k = KeyframeView { frame, value, engine_id, engine_payload: Seq::empty(), edit_seq, apply_mode };
    lemma_without_insert(s, p, k);
}

/// Moving a keyframe to a free frame and then back again restores the
/// track, and each of the two moves is one that succeeds.
#[verifier::rlimit(60)]
pub proof fn law_move_roundtrip<V, M>(s: Seq<KeyframeView<V, M>>, a: i32, b: i32)
    requires
        frames_increasing(s),
        has_frame(s, a),
        !has_frame(s, b),
        a != b,
    ensures
        ({
            let t = upserted(without_frame(s, a), KeyframeView { frame: b, ..at_frame(s, a) });
            &&& frames_increasing(t)
            &&& has_frame(t, b)
            &&& !has_frame(t, a)
            &&& upserted(without_frame(t, b), KeyframeView { frame: a, ..at_frame(t, b) }) == s
        }),
{
    let i = choose|i: int| 0 <= i < s.len() && s[i].frame == a;
    let x = s[i];
    assert(at_frame(s, a) == x) by {
        let c = choose|c: int| 0 <= c < s.len() && s[c].frame == a;
        if c < i { assert(s[c].frame < s[i].frame); } else if c > i { assert(s[i].frame < s[c].frame); }
    }
    lemma_remove_is_without(s, i, a);
    let w = s.remove(i);
    assert(frames_increasing(w)) by {
        assert forall|p: int, q: int| 0 <= p < q < w.len() implies w[p].frame < w[q].frame by {
            let p2 = if p < i { p } else { p + 1 };
            let q2 = if q < i { q } else { q + 1 };
            assert(w[p] == s[p2] && w[q] == s[q2]);
        }
    }
    assert(!has_frame(w, b)) by {
        if has_frame(w, b) {
            let j = choose|j: int| 0 <= j < w.len() && w[j].frame == b;
            let j2 = if j < i { j } else { j + 1 };
            assert(w[j] == s[j2]);
        }
    }
    assert(!has_frame(w, a)) by {
        if has_frame(w, a) {
            let j = choose|j: int| 0 <= j < w.len() && w[j].frame == a;
            let j2 = if j < i { j } else { j + 1 };
            assert(w[j] == s[j2]);
            if j2 < i { assert(s[j2].frame < s[i].frame); } else { assert(s[i].frame < s[j2].frame); }
        }
    }
    let k = KeyframeView { frame: b, ..x };
    lemma_upserted_increasing(w, k);
    lemma_lower_bound_props(w, b);
    let p = lower_bound(w, b) as int;
    let t = upserted(w, k);
    assert(t == w.insert(p, k));
    assert(t[p] == k);
    assert(at_frame(t, b) == k) by {
        let c = choose|c: int| 0 <= c < t.len() && t[c].frame == b;
        if c < p { assert(t[c].frame < t[p].frame); } else if c > p { assert(t[p].frame < t[c].frame); }
    }
    assert(!has_frame(t, a)) by {
        if has_frame(t, a) {
            let j = choose|j: int| 0 <= j < t.len() && t[j].frame == a;
            if j < p { assert(t[j] == w[j]); } else if j > p { assert(t[j] == w[j - 1]); }
        }
    }
    lemma_without_insert(w, p, k);
    assert(KeyframeView { frame: a, ..k } == x);
    lemma_lower_bound_props(w, a);
    let q = lower_bound(w, a) as int;
    assert(q == i) by {
        if q < i {
            assert(w[q] == s[q]);
            assert(s[q].frame < s[i].frame);
        } else if q > i {
            assert(w[i] == s[i + 1]);
            assert(s[i].frame < s[i + 1].frame);
        }
    }
    assert(upserted(w, x) == w.insert(i, x));
    assert(w.insert(i, x) =~= s);
}

} // verus!
