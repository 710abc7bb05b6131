//! Effect parameter presets kept per effect, sorted by name.
use vstd::prelude::*;
use crate::strmap::{StrMap, lemma_map_of_finite};
use crate::text::{strip_front, strip_back, lemma_strip_front, lemma_strip_back, lemma_lex_total, lemma_lex_trans, lex_le, str_lex_le, str_eq, string_push, strip_both, strip_bounds, chars_of,
    string_from_chars, push_str, push_decimal, decimal};

verus! {

/// A saved set of parameter values for one effect.
#[derive(Clone, Debug)]
pub struct PresetData<V> {
    pub id: String,
    pub effect_uuid: String,
    pub name: String,
    pub params: Vec<(String, V)>,
    pub created_at_unix: u64,
}

/// The plain-value picture of a preset.
pub struct PresetView<V> {
    pub id: Seq<char>,
    pub effect_uuid: Seq<char>,
    pub name: Seq<char>,
    pub params: Seq<(Seq<char>, V)>,
    pub created_at_unix: u64,
}

impl<V> View for PresetData<V> {
    type V = PresetView<V>;

    open spec fn view(&self) -> PresetView<V> {
        PresetView {
            id: self.id@,
            effect_uuid: self.effect_uuid@,
            name: self.name@,
            params: self.params@.map_values(|p: (String, V)| (p.0@, p.1)),
            created_at_unix: self.created_at_unix,
        }
    }
}

/// The plain-value picture of a preset list.
pub open spec fn pview<V>(s: Seq<PresetData<V>>) -> Seq<PresetView<V>> {
    s.map_values(|p: PresetData<V>| p@)
}

/// Names never decrease along the list.
pub open spec fn names_sorted<V>(s: Seq<PresetView<V>>) -> bool {
    forall|i: int, j: int| 0 <= i < j < s.len() ==> lex_le(s[i].name, s[j].name)
}

/// Number of leading presets whose name sorts before or equal to `name`.
pub open spec fn upper_bound<V>(s: Seq<PresetView<V>>, name: Seq<char>) -> nat
    decreases s.len(),
{
    if s.len() == 0 {
        0
    } else if lex_le(s[0].name, name) {
        1 + upper_bound(s.drop_first(), name)
    } else {
        0
    }
}

/// `x` inserted after every preset whose name sorts before or equal to its
/// own (so equal names keep their order).
pub open spec fn insert_by_name<V>(s: Seq<PresetView<V>>, x: PresetView<V>) -> Seq<PresetView<V>> {
    s.insert(upper_bound(s, x.name) as int, x)
}

/// `s` stably sorted by name: each preset in turn inserted by name.
pub open spec fn sorted_by_name<V>(s: Seq<PresetView<V>>) -> Seq<PresetView<V>>
    decreases s.len(),
{
    if s.len() == 0 {
        s
    } else {
        insert_by_name(sorted_by_name(s.drop_last()), s.last())
    }
}

/// Characters kept in a preset identifier: ASCII letters and digits, `_`
/// and `-`; every other character becomes `_`.
pub open spec fn id_char(c: char) -> char {
    if ('a' <= c <= 'z') || ('A' <= c <= 'Z') || ('0' <= c <= '9') || c == '_' || c == '-' {
        c
    } else {
        '_'
    }
}

/// The identifier stem of a preset name: characters mapped by `id_char`,
/// underscores trimmed from both ends, `preset` when nothing is left.
pub open spec fn sanitize_id_spec(name: Seq<char>) -> Seq<char> {
    let t = strip_both(name.map_values(|c: char| id_char(c)), |c: char| c == '_');
    if t.len() == 0 {
        seq!['p', 'r', 'e', 's', 'e', 't']
    } else {
        t
    }
}

/// Whether `c` may stand in a preset identifier: an ASCII letter or digit,
/// `_` or `-`.
pub open spec fn is_id_char(c: char) -> bool {
    ('a' <= c <= 'z') || ('A' <= c <= 'Z') || ('0' <= c <= '9') || c == '_' || c == '-'
}

/// A preset identifier stem is never empty, uses only identifier
/// characters, neither starts nor ends with `_`, and is `preset` when the
/// name has no ASCII letter, digit or `-`.
pub proof fn law_sanitize_id(name: Seq<char>)
    ensures
        sanitize_id_spec(name).len() > 0,
        forall|i: int| 0 <= i < sanitize_id_spec(name).len() ==> is_id_char(#[trigger] sanitize_id_spec(name)[i]),
        sanitize_id_spec(name)[0] != '_',
        sanitize_id_spec(name).last() != '_',
        (forall|i: int| 0 <= i < name.len() ==> !(is_id_char(#[trigger] name[i]) && name[i] != '_'))
            ==> sanitize_id_spec(name) == seq!['p', 'r', 'e', 's', 'e', 't'],
{
    let pr = |c: char| c == '_';
    let m = name.map_values(|c: char| id_char(c));
    let f = strip_front(m, pr);
    let b = strip_back(f, pr);
    lemma_strip_front(m, pr);
    lemma_strip_back(f, pr);
    assert(strip_both(m, pr) == b);
    let off = m.len() - f.len();
    if b.len() > 0 {
        assert forall|i: int| 0 <= i < b.len() implies is_id_char(#[trigger] b[i]) by {
            assert(b[i] == f[i]);
            assert(f[i] == m[off + i]);
        }
        assert(b[0] == f[0]);
    }
    if forall|i: int| 0 <= i < name.len() ==> !(is_id_char(#[trigger] name[i]) && name[i] != '_') {
        if f.len() > 0 {
            assert(f[0] == m[off]);
            assert(m[off] == id_char(name[off]));
        }
        assert(b.len() == 0);
    }
}

/// The identifier stem of a preset name (see `sanitize_id_spec`).
pub fn sanitize_id(name: &str) -> (r: String)
    ensures
        r@ == sanitize_id_spec(name@),
{
    let chars = chars_of(name);
    let mut mapped: Vec<char> = Vec::new();
    let mut flags: Vec<bool> = Vec::new();
    let mut i: usize = 0;
    while i < chars.len()
        invariant
            i <= chars.len(),
            chars@ == name@,
            mapped@ == chars@.take(i as int).map_values(|c: char| id_char(c)),
            flags.len() == mapped.len(),
            forall|k: int| 0 <= k < mapped.len() ==> flags@[k] == (mapped@[k] == '_'),
        decreases chars.len() - i,
    {
        let c = chars[i];
        let keep = ('a' <= c && c <= 'z') || ('A' <= c && c <= 'Z') || ('0' <= c && c <= '9')
            || c == '_' || c == '-';
        let m = if keep { c } else { '_' };
        mapped.push(m);
        flags.push(m == '_');
        assert(chars@.take(i + 1).map_values(|c: char| id_char(c)) =~= chars@.take(
            i as int,
        ).map_values(|c: char| id_char(c)).push(m));
        i += 1;
    }
    assert(chars@.take(i as int) =~= chars@);
    let (a, b) = strip_bounds(&mapped, &flags, Ghost(|c: char| c == '_'));
    if a == b {
        let mut s = String::new();
        push_str(&mut s, "preset");
        proof {
            reveal_strlit("preset");
        }
        assert(s@ =~= seq!['p', 'r', 'e', 's', 'e', 't']);
        s
    } else {
        string_from_chars(&mapped, a, b)
    }
}

/// The identifier given to a preset saved at `timestamp_millis`:
/// `<sanitized name>_<milliseconds>`.
pub fn preset_id_for(name: &str, timestamp_millis: u64) -> (r: String)
    ensures
        r@ == sanitize_id_spec(name@) + seq!['_'] + decimal(timestamp_millis as nat),
{
    let mut s = sanitize_id(name);
    string_push(&mut s, '_');
    push_decimal(&mut s, timestamp_millis);
    s
}

/// The file name of a preset: `<id>.json`.
pub fn preset_file_name(preset_id: &str) -> (r: String)
    ensures
        r@ == preset_id@ + seq!['.', 'j', 's', 'o', 'n'],
{
    let mut s = String::new();
    push_str(&mut s, preset_id);
    push_str(&mut s, ".json");
    proof {
        reveal_strlit(".json");
    }
    s
}

fn find_upper_bound<V>(s: &Vec<PresetData<V>>, name: &str) -> (p: usize)
    ensures
        p == upper_bound(pview(s@), name@),
        p <= s.len(),
{
    let ghost ps = pview(s@);
    let mut i: usize = 0;
    assert(ps.skip(0) =~= ps);
    while i < s.len() && str_lex_le(s[i].name.as_str(), name)
        invariant
            i <= s.len(),
            ps == pview(s@),
            upper_bound(ps, name@) == i + upper_bound(ps.skip(i as int), name@),
        decreases s.len() - i,
    {
        assert(ps.skip(i as int)[0] == ps[i as int]);
        assert(ps.skip(i as int).drop_first() =~= ps.skip(i + 1));
        i += 1;
    }
    if i < s.len() {
        assert(ps.skip(i as int)[0] == ps[i as int]);
    }
    i
}

/// Stably sorts presets by name.
pub fn sort_by_name<V>(list: Vec<PresetData<V>>) -> (r: Vec<PresetData<V>>)
    ensures
        pview(r@) == sorted_by_name(pview(list@)),
{
    let ghost s = pview(list@);
    let mut rest = list;
    let mut out: Vec<PresetData<V>> = Vec::new();
    let ghost mut i: int = 0;
    while rest.len() > 0
        invariant
            0 <= i <= s.len(),
            pview(rest@) == s.skip(i),
            pview(out@) == sorted_by_name(s.take(i)),
        decreases rest.len(),
    {
        let ghost r0 = rest@;
        assert(pview(r0).len() == r0.len());
        assert(i < s.len());
        assert(pview(r0)[0] == s.skip(i)[0]);
        assert(s.skip(i)[0] == s[i]);
        let x = rest.remove(0);
        assert(x@ == s[i]);
        let p = find_upper_bound(&out, x.name.as_str());
        let ghost o0 = pview(out@);
        out.insert(p, x);
        proof {
            assert(s.take(i + 1).drop_last() =~= s.take(i));
            assert(s.take(i + 1).last() == s[i]);
            assert(pview(out@) =~= o0.insert(p as int, s[i]));
            assert forall|j: int| 0 <= j < rest@.len() implies #[trigger] pview(rest@)[j] == s.skip(
                i + 1,
            )[j] by {
                assert(rest@[j] == r0[j + 1]);
                assert(pview(r0)[j + 1] == s.skip(i)[j + 1]);
            }
            assert(pview(rest@) =~= s.skip(i + 1));
            i = i + 1;
        }
    }
    assert(s.take(i) =~= s);
    out
}

/// The first index of `name` among `names`, or `names.len()` when absent.
pub open spec fn index_of_name(names: Seq<Seq<char>>, name: Seq<char>) -> nat
    decreases names.len(),
{
    if names.len() == 0 {
        0
    } else if names[0] == name {
        0
    } else {
        1 + index_of_name(names.drop_first(), name)
    }
}

/// One parameter of a preset written into `out`: at the first position of
/// its name among `names`, when that position is inside `out`.
pub open spec fn apply_one<V>(out: Seq<V>, names: Seq<Seq<char>>, p: (Seq<char>, V)) -> Seq<V> {
    let idx = index_of_name(names, p.0) as int;
    if idx < names.len() && idx < out.len() {
        out.update(idx, p.1)
    } else {
        out
    }
}

/// Every parameter of a preset written into `out`, in order.
pub open spec fn apply_all<V>(out: Seq<V>, names: Seq<Seq<char>>, params: Seq<(Seq<char>, V)>) -> Seq<V>
    decreases params.len(),
{
    if params.len() == 0 {
        out
    } else {
        apply_one(apply_all(out, names, params.drop_last()), names, params.last())
    }
}

/// Whether some parameter of the preset lands inside `out`.
pub open spec fn applies_any<V>(out_len: nat, names: Seq<Seq<char>>, params: Seq<(Seq<char>, V)>) -> bool {
    exists|i: int|
        0 <= i < params.len() && index_of_name(names, #[trigger] params[i].0) < names.len()
            && index_of_name(names, params[i].0) < out_len
}

/// The names of a parameter slot list as plain values.
pub open spec fn names_view(names: Seq<&str>) -> Seq<Seq<char>> {
    names.map_values(|n: &str| n@)
}

fn position_of(names: &[&str], name: &str) -> (r: usize)
    ensures
        r == index_of_name(names_view(names@), name@),
        r <= names.len(),
{
    let ghost nv = names_view(names@);
    let mut i: usize = 0;
    assert(nv.skip(0) =~= nv);
    while i < names.len() && !str_eq(names[i], name)
        invariant
            i <= names.len(),
            nv == names_view(names@),
            index_of_name(nv, name@) == i + index_of_name(nv.skip(i as int), name@),
        decreases names.len() - i,
    {
        assert(nv.skip(i as int)[0] == nv[i as int]);
        assert(nv.skip(i as int).drop_first() =~= nv.skip(i + 1));
        i += 1;
    }
    if i < names.len() {
        assert(nv.skip(i as int)[0] == nv[i as int]);
    }
    i
}

/// Presets grouped by effect identifier, each group sorted by name, with
/// the directory they are stored under.
pub struct PresetStore<V> {
    base_dir: String,
    presets: StrMap<Vec<PresetData<V>>>,
}

impl<V> View for PresetStore<V> {
    type V = Map<Seq<char>, Seq<PresetView<V>>>;

    closed spec fn view(&self) -> Map<Seq<char>, Seq<PresetView<V>>> {
        self.presets@.map_values(|l: Vec<PresetData<V>>| pview(l@))
    }
}

/// The presets of an effect, or none.
pub open spec fn presets_or_empty<V>(m: Map<Seq<char>, Seq<PresetView<V>>>, uuid: Seq<char>) -> Seq<PresetView<V>> {
    if m.contains_key(uuid) {
        m[uuid]
    } else {
        Seq::empty()
    }
}

/// Index of the preset with identifier `id` (first one), if any.
pub open spec fn preset_index<V>(s: Seq<PresetView<V>>, id: Seq<char>) -> Option<int> {
    if exists|i: int| 0 <= i < s.len() && s[i].id == id {
        Some(choose|i: int| 0 <= i < s.len() && s[i].id == id && forall|j: int| 0 <= j < i ==> s[j].id != id)
    } else {
        None
    }
}

/// The list after recording `x`: it replaces the preset with the same
/// identifier or is appended, then the list is sorted by name.
pub open spec fn upsert_result<V>(s: Seq<PresetView<V>>, x: PresetView<V>) -> Seq<PresetView<V>> {
    sorted_by_name(
        match preset_index(s, x.id) {
            Some(i) => s.update(i, x),
            None => s.push(x),
        },
    )
}

/// The list without the presets whose identifier is `id`.
pub open spec fn without_id<V>(s: Seq<PresetView<V>>, id: Seq<char>) -> Seq<PresetView<V>> {
    s.filter(|p: PresetView<V>| p.id != id)
}

proof fn lemma_first_index<V>(s: Seq<PresetView<V>>, id: Seq<char>, i: int)
    requires
        0 <= i < s.len(),
        s[i].id == id,
        forall|j: int| 0 <= j < i ==> s[j].id != id,
    ensures
        preset_index(s, id) == Some(i),
{
    let c = choose|k: int| 0 <= k < s.len() && s[k].id == id && forall|j: int| 0 <= j < k ==> s[j].id != id;
    if c < i {
        assert(s[c].id != id);
    } else if c > i {
        assert(s[i].id != id);
    }
}

/// Position of the first preset with identifier `id`.
fn index_of_id<V>(list: &Vec<PresetData<V>>, id: &str) -> (r: Option<usize>)
    ensures
        r matches Some(i) ==> i < list.len() && preset_index(pview(list@), id@) == Some(i as int),
        r is None ==> preset_index(pview(list@), id@) is None,
{
    let ghost s = pview(list@);
    let mut i: usize = 0;
    while i < list.len()
        invariant
            i <= list.len(),
            s == pview(list@),
            forall|j: int| 0 <= j < i ==> s[j].id != id@,
        decreases list.len() - i,
    {
        if str_eq(list[i].id.as_str(), id) {
            proof {
                lemma_first_index(s, id@, i as int);
            }
            return Some(i);
        }
        i += 1;
    }
    assert(!(exists|j: int| 0 <= j < s.len() && s[j].id == id@));
    None
}

impl<V: Copy> PresetStore<V> {
    /// Directory the presets are stored under.
    pub closed spec fn base_dir_view(&self) -> Seq<char> {
        self.base_dir@
    }

    /// Keys are distinct.
    pub closed spec fn wf(&self) -> bool {
        self.presets.wf()
    }

    /// An empty store rooted at `base_dir`.
    pub fn with_base_dir(base_dir: String) -> (s: Self)
        ensures
            s.wf(),
            s@ == Map::<Seq<char>, Seq<PresetView<V>>>::empty(),
            s.base_dir_view() == base_dir@,
    {
        let s = PresetStore { base_dir, presets: StrMap::new() };
        assert(s@ =~= Map::<Seq<char>, Seq<PresetView<V>>>::empty());
        s
    }

    /// Directory the presets are stored under.
    pub fn base_dir(&self) -> (r: &str)
        ensures
            r@ == self.base_dir_view(),
    {
        self.base_dir.as_str()
    }

    /// Forgets every preset.
    pub fn clear(&mut self)
        ensures
            final(self).wf(),
            final(self)@ == Map::<Seq<char>, Seq<PresetView<V>>>::empty(),
            final(self).base_dir_view() == old(self).base_dir_view(),
    {
        self.presets = StrMap::new();
        assert(self@ =~= Map::<Seq<char>, Seq<PresetView<V>>>::empty());
    }

    /// Replaces the presets of `effect_uuid` with `list` sorted by name (as
    /// when the store is loaded from disk).
    pub fn set_presets_for_effect(&mut self, effect_uuid: String, list: Vec<PresetData<V>>)
        requires
            old(self).wf(),
        ensures
            final(self).wf(),
            final(self)@ == old(self)@.insert(effect_uuid@, sorted_by_name(pview(list@))),
            final(self).base_dir_view() == old(self).base_dir_view(),
    {
        let sorted = sort_by_name(list);
        let ghost sg = sorted;
        self.presets.insert(effect_uuid, sorted);
        assert(self@ =~= old(self)@.insert(effect_uuid@, pview(sg@)));
    }

    /// The presets of an effect, sorted by name (empty when it has none).
    pub fn get_presets_for_effect(&self, effect_uuid: &str) -> (r: &[PresetData<V>])
        requires
            self.wf(),
        ensures
            pview(r@) == presets_or_empty(self@, effect_uuid@),
    {
        match self.presets.get(effect_uuid) {
            Some(v) => v.as_slice(),
            None => {
                let e: &[PresetData<V>] = &[];
                assert(pview(e@) =~= Seq::<PresetView<V>>::empty());
                e
            },
        }
    }

    /// The preset of `effect_uuid` whose identifier is `preset_id`.
    pub fn find_preset(&self, effect_uuid: &str, preset_id: &str) -> (r: Option<&PresetData<V>>)
        requires
            self.wf(),
        ensures
            r is Some <==> preset_index(presets_or_empty(self@, effect_uuid@), preset_id@) is Some,
            r matches Some(p) ==> p@ == presets_or_empty(self@, effect_uuid@)[preset_index(
                presets_or_empty(self@, effect_uuid@),
                preset_id@,
            )->0],
    {
        let list = match self.presets.get(effect_uuid) {
            Some(v) => v,
            None => {
                assert(presets_or_empty(self@, effect_uuid@) =~= Seq::<PresetView<V>>::empty());
                return None;
            },
        };
        assert(presets_or_empty(self@, effect_uuid@) == pview(list@));
        match index_of_id(list, preset_id) {
            Some(i) => Some(&list[i]),
            None => None,
        }
    }

    /// Records a saved preset under its effect: it replaces the preset with
    /// the same identifier or is added, and the effect's list is re-sorted by
    /// name.
    pub fn upsert_preset(&mut self, data: PresetData<V>)
        requires
            old(self).wf(),
        ensures
            final(self).wf(),
            final(self)@ == old(self)@.insert(
                data.effect_uuid@,
                upsert_result(presets_or_empty(old(self)@, data.effect_uuid@), data@),
            ),
            final(self).base_dir_view() == old(self).base_dir_view(),
    {
        let ghost d = data@;
        let uuid = data.effect_uuid.clone();
        let mut list = match self.presets.remove(uuid.as_str()) {
            Some(l) => l,
            None => Vec::new(),
        };
        let ghost s = pview(list@);
        assert(s == presets_or_empty(old(self)@, d.effect_uuid)) by {
            if !old(self)@.contains_key(d.effect_uuid) {
                assert(s =~= Seq::<PresetView<V>>::empty());
            }
        }
        match index_of_id(&list, data.id.as_str()) {
            Some(i) => {
                list.remove(i);
                list.insert(i, data);
                assert(pview(list@) =~= s.update(i as int, d));
            },
            None => {
                list.push(data);
                assert(pview(list@) =~= s.push(d));
            },
        }
        let sorted = sort_by_name(list);
        let ghost sg = sorted;
        self.presets.insert(uuid, sorted);
        assert(self@ =~= old(self)@.insert(d.effect_uuid, pview(sg@)));
    }

    /// Drops every preset of `effect_uuid` whose identifier is `preset_id`.
    pub fn remove_preset(&mut self, effect_uuid: &str, preset_id: &str)
        requires
            old(self).wf(),
        ensures
            final(self).wf(),
            !old(self)@.contains_key(effect_uuid@) ==> final(self)@ == old(self)@,
            old(self)@.contains_key(effect_uuid@) ==> final(self)@ == old(self)@.insert(
                effect_uuid@,
                without_id(old(self)@[effect_uuid@], preset_id@),
            ),
            final(self).base_dir_view() == old(self).base_dir_view(),
    {
        let list = match self.presets.remove(effect_uuid) {
            Some(l) => l,
            None => {
                assert(self@ =~= old(self)@);
                return;
            },
        };
        let ghost s = pview(list@);
        let mut rest = list;
        let mut out: Vec<PresetData<V>> = Vec::new();
        let ghost mut i: int = 0;
        while rest.len() > 0
            invariant
                0 <= i <= s.len(),
                pview(rest@) == s.skip(i),
                pview(out@) == without_id(s.take(i), preset_id@),
            decreases rest.len(),
        {
            let ghost r0 = rest@;
            assert(pview(r0).len() == r0.len());
            assert(i < s.len());
            assert(pview(r0)[0] == s.skip(i)[0]);
            assert(s.skip(i)[0] == s[i]);
            let x = rest.remove(0);
            assert(x@ == s[i]);
            proof {
                assert(s.take(i + 1).drop_last() =~= s.take(i));
                assert(s.take(i + 1).last() == s[i]);
                reveal(Seq::filter);
            }
            if !str_eq(x.id.as_str(), preset_id) {
                out.push(x);
            }
            proof {
                assert(pview(out@) =~= without_id(s.take(i + 1), preset_id@));
                assert forall|j: int| 0 <= j < rest@.len() implies #[trigger] pview(rest@)[j] == s.skip(
                    i + 1,
                )[j] by {
                    assert(rest@[j] == r0[j + 1]);
                    assert(pview(r0)[j + 1] == s.skip(i)[j + 1]);
                }
                assert(pview(rest@) =~= s.skip(i + 1));
                i = i + 1;
            }
        }
        assert(s.take(i) =~= s);
        let ghost og = out;
        self.presets.insert(effect_uuid.to_owned(), out);
        assert(self@ =~= old(self)@.insert(effect_uuid@, pview(og@)));
    }

    /// Writes the parameters of a preset into the slots `out_params` named
    /// by `param_names`: each parameter goes to the first slot with its name
    /// (when that slot exists in `out_params`). Returns whether any parameter
    /// was written; `false` and no change when the preset does not exist.
    pub fn apply_to_params(
        &self,
        effect_uuid: &str,
        preset_id: &str,
        param_names: &[&str],
        out_params: &mut [V],
    ) -> (applied: bool)
        requires
            self.wf(),
        ensures
            preset_index(presets_or_empty(self@, effect_uuid@), preset_id@) is None ==> !applied
                && final(out_params)@ == old(out_params)@,
            preset_index(presets_or_empty(self@, effect_uuid@), preset_id@) matches Some(i) ==> {
                let params = presets_or_empty(self@, effect_uuid@)[i].params;
                &&& final(out_params)@ == apply_all(old(out_params)@, names_view(param_names@), params)
                &&& applied == applies_any(old(out_params)@.len(), names_view(param_names@), params)
            },
    {
        let preset = match self.find_preset(effect_uuid, preset_id) {
            Some(p) => p,
            None => {
                return false;
            },
        };
        let ghost ps = preset@.params;
        let ghost names = names_view(param_names@);
        let ghost out0 = out_params@;
        let mut applied = false;
        let mut i: usize = 0;
        while i < preset.params.len()
            invariant
                i <= preset.params.len(),
                ps == preset@.params,
                names == names_view(param_names@),
                out_params@.len() == out0.len(),
                out_params@ == apply_all(out0, names, ps.take(i as int)),
                applied == applies_any(out0.len(), names, ps.take(i as int)),
            decreases preset.params.len() - i,
        {
            let idx = position_of(param_names, preset.params[i].0.as_str());
            proof {
                assert(ps.take(i + 1).drop_last() =~= ps.take(i as int));
                assert(ps.take(i + 1).last() == ps[i as int]);
                assert(ps[i as int] == (preset.params@[i as int].0@, preset.params@[i as int].1));
            }
            if idx < param_names.len() && idx < out_params.len() {
                out_params[idx] = preset.params[i].1;
                applied = true;
            }
            proof {
                let t1 = ps.take(i + 1);
                let t0 = ps.take(i as int);
                assert forall|j: int| 0 <= j < t0.len() implies #[trigger] t1[j] == t0[j] by {}
                if applies_any(out0.len(), names, t0) {
                    let w = choose|w: int|
                        0 <= w < t0.len() && index_of_name(names, #[trigger] t0[w].0) < names.len()
                            && index_of_name(names, t0[w].0) < out0.len();
                    assert(t1[w] == t0[w]);
                }
                if idx < names.len() && idx < out0.len() {
                    assert(t1[i as int] == ps[i as int]);
                }
                if applies_any(out0.len(), names, t1) {
                    let w = choose|w: int|
                        0 <= w < t1.len() && index_of_name(names, #[trigger] t1[w].0) < names.len()
                            && index_of_name(names, t1[w].0) < out0.len();
                    if w < t0.len() {
                        assert(t1[w] == t0[w]);
                    }
                }
                assert(out_params@ =~= apply_all(out0, names, t1));
            }
            i += 1;
        }
        assert(ps.take(i as int) =~= ps);
        applied
    }
}

/// Parameter `p` goes to slot `k` of `names`.
pub open spec fn lands_at<V>(names: Seq<Seq<char>>, p: (Seq<char>, V), k: int) -> bool {
    index_of_name(names, p.0) as int == k && k < names.len()
}

/// Writing a preset's parameters into `out` (what `apply_to_params` does):
/// the length stays; a slot that no parameter goes to keeps its value; a
/// slot that some parameters go to holds the value of the last of them.
pub proof fn law_apply_last_writer_wins<V>(out: Seq<V>, names: Seq<Seq<char>>, params: Seq<(Seq<char>, V)>)
    ensures
        apply_all(out, names, params).len() == out.len(),
        forall|k: int|
            0 <= k < out.len() && (forall|j: int| 0 <= j < params.len() ==> !lands_at(names, #[trigger] params[j], k))
                ==> #[trigger] apply_all(out, names, params)[k] == out[k],
        forall|k: int, j: int|
            0 <= k < out.len() && 0 <= j < params.len() && lands_at(names, params[j], k) && (forall|l: int|
                j < l < params.len() ==> !lands_at(names, #[trigger] params[l], k))
                ==> #[trigger] apply_all(out, names, params)[k] == #[trigger] params[j].1,
    decreases params.len(),
{
    if params.len() > 0 {
        let d = params.drop_last();
        let last = params.last();
        law_apply_last_writer_wins(out, names, d);
        let a = apply_all(out, names, d);
        assert forall|k: int|
            0 <= k < out.len() && (forall|j: int| 0 <= j < params.len() ==> !lands_at(names, #[trigger] params[j], k))
            implies #[trigger] apply_all(out, names, params)[k] == out[k] by {
            assert(!lands_at(names, params[params.len() - 1], k));
            assert forall|j: int| 0 <= j < d.len() implies !lands_at(names, #[trigger] d[j], k) by {
                assert(d[j] == params[j]);
                assert(!lands_at(names, params[j], k));
            }
        }
        assert forall|k: int, j: int|
            0 <= k < out.len() && 0 <= j < params.len() && lands_at(names, params[j], k) && (forall|l: int|
                j < l < params.len() ==> !lands_at(names, #[trigger] params[l], k))
            implies #[trigger] apply_all(out, names, params)[k] == #[trigger] params[j].1 by {
            if j < params.len() - 1 {
                assert(!lands_at(names, params[params.len() - 1], k));
                assert(d[j] == params[j]);
                assert forall|l: int| j < l < d.len() implies !lands_at(names, #[trigger] d[l], k) by {
                    assert(d[l] == params[l]);
                    assert(!lands_at(names, params[l], k));
                }
                assert(a[k] == d[j].1);
            }
        }
    }
}

proof fn lemma_upper_bound_props<V>(s: Seq<PresetView<V>>, name: Seq<char>)
    ensures
        upper_bound(s, name) <= s.len(),
        forall|j: int| 0 <= j < upper_bound(s, name) ==> lex_le(#[trigger] s[j].name, name),
        upper_bound(s, name) < s.len() ==> !lex_le(s[upper_bound(s, name) as int].name, name),
    decreases s.len(),
{
    if s.len() > 0 && lex_le(s[0].name, name) {
        lemma_upper_bound_props(s.drop_first(), name);
        assert forall|j: int| 0 <= j < upper_bound(s, name) implies lex_le(#[trigger] s[j].name, name) by {
            if j > 0 {
                assert(s[j] == s.drop_first()[j - 1]);
            }
        }
    }
}

/// Sorting by name yields a list whose names never decrease and which holds
/// the same presets, each as often as before.
pub proof fn law_sort_by_name<V>(s: Seq<PresetView<V>>)
    ensures
        names_sorted(sorted_by_name(s)),
        sorted_by_name(s).to_multiset() == s.to_multiset(),
        sorted_by_name(s).len() == s.len(),
    decreases s.len(),
{
    broadcast use vstd::seq_lib::to_multiset_insert, vstd::seq_lib::to_multiset_build;

    if s.len() == 0 {
    } else {
        let d = s.drop_last();
        let x = s.last();
        law_sort_by_name(d);
        let t = sorted_by_name(d);
        let p = upper_bound(t, x.name) as int;
        lemma_upper_bound_props(t, x.name);
        let r = t.insert(p, x);
        assert(r == sorted_by_name(s));
        if p < t.len() {
            lemma_lex_total(t[p].name, x.name);
        }
        assert forall|i: int, j: int| 0 <= i < j < r.len() implies lex_le(r[i].name, r[j].name) by {
            if j < p {
            } else if j == p {
            } else if i < p {
                assert(r[j] == t[j - 1]);
                lemma_lex_trans(t[i].name, x.name, t[p].name);
                if j - 1 > p {
                    lemma_lex_trans(t[i].name, t[p].name, t[j - 1].name);
                }
            } else if i == p {
                assert(r[j] == t[j - 1]);
                if j - 1 > p {
                    lemma_lex_trans(x.name, t[p].name, t[j - 1].name);
                }
            } else {
                assert(r[i] == t[i - 1]);
                assert(r[j] == t[j - 1]);
            }
        }
        assert(d.push(x) =~= s);
    }
}

/// Removing a preset by identifier leaves no preset with that identifier.
pub proof fn law_remove_then_find<V>(s: Seq<PresetView<V>>, id: Seq<char>)
    ensures
        preset_index(without_id(s, id), id) is None,
{
    let pred = |p: PresetView<V>| p.id != id;
    broadcast use vstd::seq_lib::group_filter_ensures;

    let r = without_id(s, id);
    assert forall|i: int| 0 <= i < r.len() implies r[i].id != id by {
        assert(pred(r[i]));
    }
}

/// The list before sorting in which `x` was recorded.
pub open spec fn upsert_unsorted<V>(s: Seq<PresetView<V>>, x: PresetView<V>) -> Seq<PresetView<V>> {
    match preset_index(s, x.id) {
        Some(i) => s.update(i, x),
        None => s.push(x),
    }
}

proof fn lemma_upsert_unsorted<V>(s: Seq<PresetView<V>>, x: PresetView<V>)
    requires
        forall|i: int, j: int| 0 <= i < j < s.len() ==> !(s[i].id == x.id && s[j].id == x.id),
    ensures
        upsert_unsorted(s, x).to_multiset().count(x) == 1,
        forall|i: int| 0 <= i < upsert_unsorted(s, x).len() && upsert_unsorted(s, x)[i].id == x.id ==> upsert_unsorted(s, x)[i] == x,
{
    broadcast use vstd::seq_lib::to_multiset_remove, vstd::seq_lib::to_multiset_contains;

    let t = match preset_index(s, x.id) {
        Some(i) => s.update(i, x),
        None => s.push(x),
    };
    let k: int = match preset_index(s, x.id) {
        Some(i) => i,
        None => s.len() as int,
    };
    // In `t`, only position `k` has the identifier of `x`, and it holds `x`.
    assert(0 <= k < t.len() && t[k] == x);
    assert forall|i: int| 0 <= i < t.len() && t[i].id == x.id implies i == k by {
        match preset_index(s, x.id) {
            Some(m) => {
                if i != m {
                    assert(s[i].id == x.id);
                    if i < m {
                        assert(!(s[i].id == x.id && s[m].id == x.id));
                    } else {
                        assert(!(s[m].id == x.id && s[i].id == x.id));
                    }
                }
            },
            None => {
                if i < s.len() {
                    assert(s[i].id == x.id);
                }
            },
        }
    }
    // `x` occurs exactly once in `t`.
    assert(!t.remove(k).contains(x)) by {
        if t.remove(k).contains(x) {
            let j = choose|j: int| 0 <= j < t.remove(k).len() && t.remove(k)[j] == x;
            let j2 = if j < k { j } else { j + 1 };
            assert(t[j2] == t.remove(k)[j]);
        }
    }
    assert(t.to_multiset().count(x) == 1) by {
        assert(t.remove(k).to_multiset() == t.to_multiset().remove(x));
        assert(t.remove(k).to_multiset().count(x) == 0);
        assert(t.contains(x));
    }
    assert(t == upsert_unsorted(s, x));
}

/// After recording `x` in a list where at most one preset had its
/// identifier, exactly one preset has that identifier, it is `x`, and
/// looking it up finds `x`; the list is sorted by name.
pub proof fn law_upsert_then_find<V>(s: Seq<PresetView<V>>, x: PresetView<V>)
    requires
        forall|i: int, j: int| 0 <= i < j < s.len() ==> !(s[i].id == x.id && s[j].id == x.id),
    ensures
        preset_index(upsert_result(s, x), x.id) matches Some(i) && upsert_result(s, x)[i] == x,
        forall|i: int, j: int|
            0 <= i < j < upsert_result(s, x).len() ==> !(upsert_result(s, x)[i].id == x.id
                && upsert_result(s, x)[j].id == x.id),
        names_sorted(upsert_result(s, x)),
{
    broadcast use vstd::seq_lib::to_multiset_remove, vstd::seq_lib::to_multiset_contains;

    lemma_upsert_unsorted(s, x);
    let t = upsert_unsorted(s, x);
    law_sort_by_name(t);
    let r = sorted_by_name(t);
    assert(r == upsert_result(s, x));
    assert(r.to_multiset().count(x) == 1);
    assert(r.contains(x));
    // Every preset of `r` with the identifier of `x` is `x`.
    assert forall|i: int| 0 <= i < r.len() && r[i].id == x.id implies r[i] == x by {
        assert(r.contains(r[i]));
        assert(r.to_multiset().count(r[i]) > 0);
        assert(t.contains(r[i]));
        let j = choose|j: int| 0 <= j < t.len() && t[j] == r[i];
        assert(t[j].id == x.id);
    }
    // No two positions of `r` hold `x`.
    assert forall|i: int, j: int| 0 <= i < j < r.len() implies !(r[i].id == x.id && r[j].id == x.id) by {
        if r[i].id == x.id && r[j].id == x.id {
            assert(r[i] == x && r[j] == x);
            assert(r.remove(i).to_multiset() == r.to_multiset().remove(x));
            assert(r.remove(i)[j - 1] == x);
            assert(r.remove(i).contains(x));
            assert(r.remove(i).to_multiset().count(x) > 0);
        }
    }
    let w = choose|w: int| 0 <= w < r.len() && r[w] == x;
    assert(exists|i: int| 0 <= i < r.len() && r[i].id == x.id) by {
        assert(r[w].id == x.id);
    }
    let c = choose|i: int|
        0 <= i < r.len() && r[i].id == x.id && forall|j: int| 0 <= j < i ==> r[j].id != x.id;
    assert(exists|i: int|
        0 <= i < r.len() && r[i].id == x.id && forall|j: int| 0 <= j < i ==> r[j].id != x.id) by {
        assert forall|j: int| 0 <= j < w implies r[j].id != x.id by {
            if r[j].id == x.id {
                assert(!(r[j].id == x.id && r[w].id == x.id));
            }
        }
    }
}

/// Where presets are stored, before `neoutl/presets` is appended: the
/// Windows application-data directory, the XDG configuration directory,
/// `.config` under the home directory, or `.neoutl` in the working
/// directory.
pub enum PresetsBase {
    AppData(String),
    XdgConfig(String),
    HomeConfig(String),
    Local,
}

/// Chooses where presets are stored from the environment: on Windows a
/// non-empty `APPDATA`; elsewhere a non-empty `XDG_CONFIG_HOME`, else a
/// non-empty `HOME`; else the working directory.
pub fn presets_base(windows: bool, appdata: Option<String>, xdg_config_home: Option<String>, home: Option<String>) -> (r: PresetsBase)
    ensures
        windows ==> match appdata {
            Some(a) if a@.len() > 0 => r matches PresetsBase::AppData(p) && p@ == a@,
            _ => r is Local,
        },
        !windows ==> match (xdg_config_home, home) {
            (Some(x), _) if x@.len() > 0 => r matches PresetsBase::XdgConfig(p) && p@ == x@,
            (_, Some(h)) if h@.len() > 0 => r matches PresetsBase::HomeConfig(p) && p@ == h@,
            _ => r is Local,
        },
{
    if windows {
        if let Some(a) = appdata {
            if a.unicode_len() > 0 {
                return PresetsBase::AppData(a);
            }
        }
        return PresetsBase::Local;
    }
    if let Some(x) = xdg_config_home {
        if x.unicode_len() > 0 {
            return PresetsBase::XdgConfig(x);
        }
    }
    if let Some(h) = home {
        if h.unicode_len() > 0 {
            return PresetsBase::HomeConfig(h);
        }
    }
    PresetsBase::Local
}

} // verus!
