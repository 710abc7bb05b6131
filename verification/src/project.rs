//! Project bookkeeping that does not touch the disk: directory names,
//! names of copies, which save file to read, and the format shown for a
//! project.
use vstd::prelude::*;
pub use crate::calendar::format_date;
use crate::sorting::TextKey;
use crate::text::{chars_of, decimal, is_alphanumeric, push_decimal, push_str, string_push, trim_spec, trim_whitespace, unicode_alphanumeric};

verus! {

/// What a project listing shows of a project. `dir` is the project's
/// directory and `modified_secs` the time of its last save, in seconds
/// after 1970-01-01 00:00 UTC.
#[derive(Clone, Debug)]
pub struct ProjectMeta {
    pub name: String,
    pub dir: String,
    pub fps: u32,
    pub width: u32,
    pub height: u32,
    pub audio_sample_rate: u32,
    pub audio_channels: u32,
    pub modified_secs: u64,
}

impl TextKey for ProjectMeta {
    open spec fn key_view(&self) -> Seq<char> {
        self.name@
    }

    fn key(&self) -> (r: &str) {
        self.name.as_str()
    }
}

/// A character kept in a directory name; others become `_`.
pub open spec fn dir_name_char(c: char) -> char {
    if unicode_alphanumeric(c) || c == '-' || c == '_' || c == '.' { c } else { '_' }
}

/// The name used when nothing is left of a project name.
pub open spec fn fallback_dir_name() -> Seq<char> {
    seq!['p', 'r', 'o', 'j', 'e', 'c', 't']
}

/// The directory name for a project name: trimmed, with every character
/// other than alphanumerics, `-`, `_` and `.` replaced by `_`; `project`
/// when that is empty.
pub open spec fn sanitize_spec(name: Seq<char>) -> Seq<char> {
    let t = trim_spec(name);
    if t.len() == 0 { fallback_dir_name() } else { t.map_values(|c: char| dir_name_char(c)) }
}

/// The directory name for a project name (see `sanitize_spec`).
pub fn sanitize_dir_name(name: &str) -> (r: String)
    ensures
        r@ == sanitize_spec(name@),
{
    let trimmed = trim_whitespace(name);
    let chars = chars_of(trimmed.as_str());
    if chars.len() == 0 {
        let mut s = String::new();
        push_str(&mut s, "project");
        proof {
            reveal_strlit("project");
        }
        assert(s@ =~= fallback_dir_name());
        return s;
    }
    let mut s = String::new();
    let mut i: usize = 0;
    while i < chars.len()
        invariant
            i <= chars.len(),
            chars@ == trim_spec(name@),
            s@ == chars@.take(i as int).map_values(|c: char| dir_name_char(c)),
        decreases chars.len() - i,
    {
        let c = chars[i];
        let kept = is_alphanumeric(c) || c == '-' || c == '_' || c == '.';
        string_push(&mut s, if kept { c } else { '_' });
        assert(chars@.take(i + 1).map_values(|c: char| dir_name_char(c)) =~= chars@.take(i as int).map_values(
            |c: char| dir_name_char(c),
        ).push(dir_name_char(c)));
        i += 1;
    }
    assert(chars@.take(i as int) =~= chars@);
    s
}

/// The directory name tried for a new project after `suffix - 1` names
/// were taken: the base name first, then `base_2`, `base_3`, and so on.
pub open spec fn dir_candidate_spec(base: Seq<char>, suffix: nat) -> Seq<char> {
    if suffix < 2 { base } else { base + seq!['_'] + decimal(suffix) }
}

/// The directory name tried for a new project (see `dir_candidate_spec`).
pub fn dir_name_candidate(base: &str, suffix: u64) -> (r: String)
    ensures
        r@ == dir_candidate_spec(base@, suffix as nat),
{
    let mut s = String::new();
    push_str(&mut s, base);
    if suffix >= 2 {
        string_push(&mut s, '_');
        push_decimal(&mut s, suffix);
    }
    assert(s@ =~= dir_candidate_spec(base@, suffix as nat));
    s
}

/// The name of a copy of project `source`: `source_copy`, then
/// `source_copy2`, `source_copy3`, ... while those are taken.
pub open spec fn copy_name_spec(source: Seq<char>, suffix: nat) -> Seq<char> {
    let base = source + seq!['_', 'c', 'o', 'p', 'y'];
    if suffix < 2 { base } else { base + decimal(suffix) }
}

/// The name of a copy of a project (see `copy_name_spec`).
pub fn copy_name_candidate(source: &str, suffix: u64) -> (r: String)
    ensures
        r@ == copy_name_spec(source@, suffix as nat),
{
    let mut s = String::new();
    push_str(&mut s, source);
    string_push(&mut s, '_');
    string_push(&mut s, 'c');
    string_push(&mut s, 'o');
    string_push(&mut s, 'p');
    string_push(&mut s, 'y');
    if suffix >= 2 {
        push_decimal(&mut s, suffix);
    }
    assert(s@ =~= copy_name_spec(source@, suffix as nat));
    s
}

/// Whether the autosave is read in place of the project file, given the
/// modification times of both (`None` when a file's time cannot be read):
/// only an autosave that exists and is newer than the project file, or
/// whose project file has no readable time.
pub fn use_recovery(recovery_modified: Option<u128>, project_modified: Option<u128>) -> (r: bool)
    ensures
        r == match (recovery_modified, project_modified) {
            (None, _) => false,
            (Some(_), None) => true,
            (Some(a), Some(b)) => a > b,
        },
{
    match recovery_modified {
        None => false,
        Some(a) => match project_modified {
            None => true,
            Some(b) => a > b,
        },
    }
}

/// The format of a scene: its id, frame rate, width and height.
#[derive(Clone, Debug)]
pub struct SceneFormat {
    pub id: i32,
    pub fps: u32,
    pub width: u32,
    pub height: u32,
}

/// Frame rate, width and height of a project: those of the first scene
/// with the active id, else 30 fps at 1920 x 1080.
pub open spec fn active_format_spec(scenes: Seq<SceneFormat>, active: i32) -> (u32, u32, u32) {
    if exists|i: int| 0 <= i < scenes.len() && scenes[i].id == active {
        let i = choose|i: int| 0 <= i < scenes.len() && scenes[i].id == active && forall|j: int| 0 <= j < i ==> scenes[j].id != active;
        (scenes[i].fps, scenes[i].width, scenes[i].height)
    } else {
        (30, 1920, 1080)
    }
}

/// Frame rate, width and height of a project (see `active_format_spec`).
pub fn active_format(scenes: &Vec<SceneFormat>, active: i32) -> (r: (u32, u32, u32))
    ensures
        r == active_format_spec(scenes@, active),
{
    let mut i: usize = 0;
    while i < scenes.len()
        invariant
            i <= scenes.len(),
            forall|j: int| 0 <= j < i ==> scenes@[j].id != active,
        decreases scenes.len() - i,
    {
        if scenes[i].id == active {
            proof {
                let s = scenes@;
                assert(0 <= i < s.len() && s[i as int].id == active && forall|j: int| 0 <= j < i ==> s[j].id != active);
                let c = choose|k: int| 0 <= k < s.len() && s[k].id == active && forall|j: int| 0 <= j < k ==> s[j].id != active;
                if c < i {
                    assert(s[c].id != active);
                } else if c > i {
                    assert(s[i as int].id != active);
                }
            }
            return (scenes[i].fps, scenes[i].width, scenes[i].height);
        }
        i += 1;
    }
    (30, 1920, 1080)
}

} // verus!
