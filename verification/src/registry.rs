//! The audio plugin catalog: a cache of scan results per plugin format,
//! and the decisions taken while scanning (which bundle crashed a scan,
//! whether to retry, which files match a format).
use vstd::prelude::*;
use crate::text::{chars_of, string_from_chars, trim_spec, trim_whitespace};

verus! {

/// How long one scan process may run, in seconds.
pub const SCAN_TIMEOUT_SECS: u64 = 20;

/// How many times a VST3 scan is retried after a plugin crashed it.
pub const VST3_CRASH_RETRY_LIMIT: u32 = 32;

/// Plugin formats that can be scanned.
#[derive(Clone, Copy, Debug, PartialEq, Eq, Structural)]
pub enum PluginFormat {
    Clap,
    Vst3,
    Lv2,
}

/// A plugin found by a scan. `path` is where it was found.
#[derive(Clone, Debug)]
pub struct PluginCatalogEntry {
    pub format: PluginFormat,
    pub name: String,
    pub vendor: String,
    pub plugin_id: String,
    pub path: String,
}

/// A copy of `e`.
pub fn copy_entry(e: &PluginCatalogEntry) -> (r: PluginCatalogEntry)
    ensures
        r == *e,
{
    PluginCatalogEntry {
        format: e.format,
        name: e.name.clone(),
        vendor: e.vendor.clone(),
        plugin_id: e.plugin_id.clone(),
        path: e.path.clone(),
    }
}

fn copy_entries(v: &Vec<PluginCatalogEntry>) -> (r: Vec<PluginCatalogEntry>)
    ensures
        r@ == v@,
{
    let mut out: Vec<PluginCatalogEntry> = Vec::new();
    let mut i: usize = 0;
    while i < v.len()
        invariant
            i <= v.len(),
            out@ == v@.take(i as int),
        decreases v.len() - i,
    {
        out.push(copy_entry(&v[i]));
        assert(v@.take(i + 1) =~= v@.take(i as int).push(v@[i as int]));
        i += 1;
    }
    assert(v@.take(i as int) =~= v@);
    out
}

/// The last scan result of each format, if it is still valid.
pub struct ScanCache {
    clap: Option<Vec<PluginCatalogEntry>>,
    vst3: Option<Vec<PluginCatalogEntry>>,
    lv2: Option<Vec<PluginCatalogEntry>>,
}

impl ScanCache {
    /// The cached entries of `format`, `None` when it must be scanned.
    pub closed spec fn cached(&self, format: PluginFormat) -> Option<Seq<PluginCatalogEntry>> {
        let slot = match format {
            PluginFormat::Clap => self.clap,
            PluginFormat::Vst3 => self.vst3,
            PluginFormat::Lv2 => self.lv2,
        };
        match slot {
            Some(v) => Some(v@),
            None => None,
        }
    }

    /// Nothing cached.
    pub fn new() -> (c: Self)
        ensures
            forall|f: PluginFormat| c.cached(f) is None,
    {
        ScanCache { clap: None, vst3: None, lv2: None }
    }

    /// Forgets the entries of `format`, so that the next catalog request
    /// scans again.
    pub fn invalidate(&mut self, format: PluginFormat)
        ensures
            final(self).cached(format) is None,
            forall|f: PluginFormat| f != format ==> final(self).cached(f) == old(self).cached(f),
    {
        match format {
            PluginFormat::Clap => self.clap = None,
            PluginFormat::Vst3 => self.vst3 = None,
            PluginFormat::Lv2 => self.lv2 = None,
        }
    }

    /// Whether `format` has no valid result and must be scanned.
    pub fn needs_scan(&self, format: PluginFormat) -> (r: bool)
        ensures
            r == self.cached(format) is None,
    {
        match format {
            PluginFormat::Clap => self.clap.is_none(),
            PluginFormat::Vst3 => self.vst3.is_none(),
            PluginFormat::Lv2 => self.lv2.is_none(),
        }
    }

    /// Keeps the result of a scan of `format`.
    pub fn store(&mut self, format: PluginFormat, entries: Vec<PluginCatalogEntry>)
        ensures
            final(self).cached(format) == Some(entries@),
            forall|f: PluginFormat| f != format ==> final(self).cached(f) == old(self).cached(f),
    {
        match format {
            PluginFormat::Clap => self.clap = Some(entries),
            PluginFormat::Vst3 => self.vst3 = Some(entries),
            PluginFormat::Lv2 => self.lv2 = Some(entries),
        }
    }

    /// The cached entries of `format` (none when it was not scanned).
    pub fn catalog(&self, format: PluginFormat) -> (r: Vec<PluginCatalogEntry>)
        ensures
            r@ == match self.cached(format) {
                Some(v) => v,
                None => Seq::<PluginCatalogEntry>::empty(),
            },
    {
        let slot = match format {
            PluginFormat::Clap => &self.clap,
            PluginFormat::Vst3 => &self.vst3,
            PluginFormat::Lv2 => &self.lv2,
        };
        match slot {
            Some(v) => copy_entries(v),
            None => Vec::new(),
        }
    }
}

/// The file extension of a format's plugins.
pub fn format_extension(format: PluginFormat) -> (r: &'static str)
    ensures
        r@ == match format {
            PluginFormat::Vst3 => "vst3"@,
            PluginFormat::Clap => "clap"@,
            PluginFormat::Lv2 => "lv2"@,
        },
{
    match format {
        PluginFormat::Vst3 => "vst3",
        PluginFormat::Clap => "clap",
        PluginFormat::Lv2 => "lv2",
    }
}

/// `c` with ASCII upper-case letters made lower-case, as a code point.
pub open spec fn ascii_lower(c: char) -> u32 {
    if 'A' <= c <= 'Z' { (c as u32 + 32) as u32 } else { c as u32 }
}

/// Whether `a` and `b` are equal ignoring ASCII case.
pub open spec fn eq_ignore_ascii_case_spec(a: Seq<char>, b: Seq<char>) -> bool {
    a.len() == b.len() && forall|i: int| 0 <= i < a.len() ==> ascii_lower(#[trigger] a[i]) == ascii_lower(b[i])
}

/// Whether `a` and `b` are equal ignoring ASCII case.
pub fn eq_ignore_ascii_case(a: &str, b: &str) -> (r: bool)
    ensures
        r == eq_ignore_ascii_case_spec(a@, b@),
{
    let x = chars_of(a);
    let y = chars_of(b);
    if x.len() != y.len() {
        return false;
    }
    let mut i: usize = 0;
    while i < x.len()
        invariant
            i <= x.len() == y.len(),
            x@ == a@,
            y@ == b@,
            forall|k: int| 0 <= k < i ==> ascii_lower(#[trigger] x@[k]) == ascii_lower(y@[k]),
        decreases x.len() - i,
    {
        let c = x[i];
        let d = y[i];
        let lc: u32 = if 'A' <= c && c <= 'Z' { c as u32 + 32 } else { c as u32 };
        let ld: u32 = if 'A' <= d && d <= 'Z' { d as u32 + 32 } else { d as u32 };
        if lc != ld {
            return false;
        }
        i += 1;
    }
    true
}

/// Whether a file with extension `ext` (`None` when it has none) holds a
/// plugin of `format`.
pub fn extension_matches(ext: Option<&str>, format: PluginFormat) -> (r: bool)
    ensures
        r == match ext {
            Some(e) => eq_ignore_ascii_case_spec(e@, format_extension_spec(format)),
            None => false,
        },
{
    match ext {
        Some(e) => eq_ignore_ascii_case(e, format_extension(format)),
        None => false,
    }
}

/// The file extension of a format's plugins.
pub open spec fn format_extension_spec(format: PluginFormat) -> Seq<char> {
    match format {
        PluginFormat::Vst3 => "vst3"@,
        PluginFormat::Clap => "clap"@,
        PluginFormat::Lv2 => "lv2"@,
    }
}

/// The line that the VST3 scanner logs before it loads a bundle.
pub open spec fn bundle_marker() -> Seq<char> {
    "scanning VST3 plugin bundle: "@
}

/// Whether `pat` occurs in `s` at index `i`.
pub open spec fn occurs_at(s: Seq<char>, pat: Seq<char>, i: int) -> bool {
    0 <= i && i + pat.len() <= s.len() && s.subrange(i, i + pat.len()) == pat
}

/// The index of the first `'\n'` in `s`, or its length.
pub open spec fn line_end(s: Seq<char>) -> int {
    if exists|i: int| 0 <= i < s.len() && s[i] == '\n' {
        choose|i: int| 0 <= i < s.len() && s[i] == '\n' && forall|j: int| 0 <= j < i ==> s[j] != '\n'
    } else {
        s.len() as int
    }
}

/// The bundle named by the last marker line of a scanner's error output:
/// the rest of that line, trimmed; `None` without a marker or with an
/// empty name.
pub open spec fn crashed_bundle_spec(stderr: Seq<char>) -> Option<Seq<char>> {
    let m = bundle_marker();
    if exists|i: int| occurs_at(stderr, m, i) {
        let i = choose|i: int| occurs_at(stderr, m, i) && forall|j: int| occurs_at(stderr, m, j) ==> j <= i;
        let rest = stderr.subrange(i + m.len(), stderr.len() as int);
        let name = trim_spec(rest.take(line_end(rest)));
        if name.len() == 0 { None } else { Some(name) }
    } else {
        None
    }
}

fn occurs_at_exec(s: &Vec<char>, pat: &Vec<char>, i: usize) -> (r: bool)
    ensures
        r == occurs_at(s@, pat@, i as int),
{
    if i > s.len() || pat.len() > s.len() - i {
        return false;
    }
    let mut k: usize = 0;
    while k < pat.len()
        invariant
            i + pat.len() <= s.len(),
            k <= pat.len(),
            forall|j: int| 0 <= j < k ==> s@[i + j] == pat@[j],
        decreases pat.len() - k,
    {
        if s[i + k] != pat[k] {
            assert(s@.subrange(i as int, i + pat.len())[k as int] != pat@[k as int]);
            return false;
        }
        k += 1;
    }
    assert(s@.subrange(i as int, i + pat.len()) =~= pat@);
    true
}

/// The last index at which `pat` occurs in `s`.
fn last_occurrence(s: &Vec<char>, pat: &Vec<char>) -> (r: Option<usize>)
    ensures
        match r {
            Some(i) => occurs_at(s@, pat@, i as int) && forall|j: int| occurs_at(s@, pat@, j) ==> j <= i,
            None => forall|j: int| !occurs_at(s@, pat@, j),
        },
{
    let mut i: usize = s.len();
    loop
        invariant
            i <= s.len(),
            forall|j: int| i < j && occurs_at(s@, pat@, j) ==> false,
        decreases i,
    {
        if occurs_at_exec(s, pat, i) {
            return Some(i);
        }
        if i == 0 {
            return None;
        }
        i -= 1;
    }
}

/// The index of the first `'\n'` at or after `from`, or the length.
fn find_newline(s: &Vec<char>, from: usize) -> (r: usize)
    requires
        from <= s.len(),
    ensures
        from <= r <= s.len(),
        r == from + line_end(s@.subrange(from as int, s@.len() as int)),
{
    let ghost rest = s@.subrange(from as int, s@.len() as int);
    let mut k = from;
    while k < s.len() && s[k] != '\n'
        invariant
            from <= k <= s.len(),
            rest == s@.subrange(from as int, s@.len() as int),
            forall|j: int| 0 <= j < k - from ==> rest[j] != '\n',
        decreases s.len() - k,
    {
        k += 1;
    }
    proof {
        if k < s.len() {
            let w = k - from;
            assert(rest[w as int] == '\n');
            let c = choose|i: int| 0 <= i < rest.len() && rest[i] == '\n' && forall|j: int| 0 <= j < i ==> rest[j] != '\n';
            if c < w {
                assert(rest[c] != '\n');
            } else if c > w {
                assert(rest[w as int] != '\n');
            }
        } else {
            assert(!exists|i: int| 0 <= i < rest.len() && rest[i] == '\n');
        }
    }
    k
}

/// The bundle that the VST3 scanner was loading when it crashed, read
/// from its error output (see `crashed_bundle_spec`).
pub fn last_scanning_vst3_bundle(stderr: &str) -> (r: Option<String>)
    ensures
        match r {
            Some(p) => crashed_bundle_spec(stderr@) == Some(p@),
            None => crashed_bundle_spec(stderr@) is None,
        },
{
    let s = chars_of(stderr);
    let marker = chars_of("scanning VST3 plugin bundle: ");
    let start = match last_occurrence(&s, &marker) {
        Some(i) => i,
        None => {
            return None;
        },
    };
    let ghost m = bundle_marker();
    proof {
        let c = choose|i: int| occurs_at(s@, m, i) && forall|j: int| occurs_at(s@, m, j) ==> j <= i;
        assert(c <= start as int && start as int <= c);
    }
    let ml = marker.len();
    assert(start + ml <= s.len());
    let from = start + ml;
    let e = find_newline(&s, from);
    let line = string_from_chars(&s, from, e);
    proof {
        let rest = s@.subrange(from as int, s@.len() as int);
        assert(rest.take(line_end(rest)) =~= s@.subrange(from as int, e as int));
    }
    let name = trim_whitespace(line.as_str());
    if name.unicode_len() == 0 {
        None
    } else {
        Some(name)
    }
}

/// What to do after a VST3 scan process ended.
pub enum Vst3ScanAction {
    /// Read the catalog from the scan's output.
    UseOutput,
    /// Stop scanning; the catalog is empty.
    GiveUp,
    /// Block the bundle that crashed the scan, then scan again.
    BlockAndRetry(String),
}

/// The next step of a VST3 scan, given whether the scan wrote an output,
/// how the process ended (`None` when it timed out or could not be
/// watched, else whether it succeeded) and its error output.
pub fn vst3_scan_action(has_output: bool, exit_success: Option<bool>, stderr: &str) -> (r: Vst3ScanAction)
    ensures
        has_output ==> r is UseOutput,
        !has_output ==> match exit_success {
            None | Some(true) => r is GiveUp,
            Some(false) => match crashed_bundle_spec(stderr@) {
                Some(p) => r matches Vst3ScanAction::BlockAndRetry(q) && q@ == p,
                None => r is GiveUp,
            },
        },
{
    if has_output {
        return Vst3ScanAction::UseOutput;
    }
    match exit_success {
        None | Some(true) => Vst3ScanAction::GiveUp,
        Some(false) => match last_scanning_vst3_bundle(stderr) {
            Some(p) => Vst3ScanAction::BlockAndRetry(p),
            None => Vst3ScanAction::GiveUp,
        },
    }
}

} // verus!
