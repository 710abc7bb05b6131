//! Names used when building and staging the workspace: plugin crates found
//! from their manifests, and the file names of libraries and programs.
use vstd::prelude::*;
use crate::sorting::TextKey;
use crate::text::{chars_of, push_str, str_eq, string_push};

verus! {

/// The operating system that artifacts are built for.
#[derive(Clone, Copy, Debug, PartialEq, Eq, Structural)]
pub enum TargetOs {
    Windows,
    Macos,
    /// Linux and other Unix systems.
    Unix,
}

/// The file name of the dynamic library `lib_name`.
pub open spec fn dylib_filename_spec(lib_name: Seq<char>, os: TargetOs) -> Seq<char> {
    match os {
        TargetOs::Windows => lib_name + ".dll"@,
        TargetOs::Macos => "lib"@ + lib_name + ".dylib"@,
        TargetOs::Unix => "lib"@ + lib_name + ".so"@,
    }
}

/// The file name of the dynamic library `lib_name`: `name.dll`,
/// `libname.dylib` or `libname.so`.
pub fn dylib_filename(lib_name: &str, os: TargetOs) -> (r: String)
    ensures
        r@ == dylib_filename_spec(lib_name@, os),
{
    let mut s = String::new();
    match os {
        TargetOs::Windows => {
            push_str(&mut s, lib_name);
            push_str(&mut s, ".dll");
        },
        TargetOs::Macos => {
            push_str(&mut s, "lib");
            push_str(&mut s, lib_name);
            push_str(&mut s, ".dylib");
        },
        TargetOs::Unix => {
            push_str(&mut s, "lib");
            push_str(&mut s, lib_name);
            push_str(&mut s, ".so");
        },
    }
    assert(s@ =~= dylib_filename_spec(lib_name@, os));
    s
}

/// The file name of the program `bin_name`: with `.exe` on Windows.
pub fn exe_filename(bin_name: &str, os: TargetOs) -> (r: String)
    ensures
        r@ == match os {
            TargetOs::Windows => bin_name@ + ".exe"@,
            _ => bin_name@,
        },
{
    let mut s = String::new();
    push_str(&mut s, bin_name);
    if let TargetOs::Windows = os {
        push_str(&mut s, ".exe");
    }
    assert(s@ =~= match os {
        TargetOs::Windows => bin_name@ + ".exe"@,
        _ => bin_name@,
    });
    s
}

/// The library name a package gets by default: `-` becomes `_`.
pub open spec fn default_lib_name_spec(package: Seq<char>) -> Seq<char> {
    package.map_values(|c: char| if c == '-' { '_' } else { c })
}

/// The library name a package gets by default: `-` becomes `_`.
pub fn default_lib_name(package: &str) -> (r: String)
    ensures
        r@ == default_lib_name_spec(package@),
{
    let chars = chars_of(package);
    let mut s = String::new();
    let mut i: usize = 0;
    while i < chars.len()
        invariant
            i <= chars.len(),
            chars@ == package@,
            s@ == chars@.take(i as int).map_values(|c: char| if c == '-' { '_' } else { c }),
        decreases chars.len() - i,
    {
        let c = chars[i];
        string_push(&mut s, if c == '-' { '_' } else { c });
        assert(chars@.take(i + 1).map_values(|c: char| if c == '-' { '_' } else { c }) =~= chars@.take(
            i as int,
        ).map_values(|c: char| if c == '-' { '_' } else { c }).push(if c == '-' { '_' } else { c }));
        i += 1;
    }
    assert(chars@.take(i as int) =~= chars@);
    s
}

/// Whether a file with extension `ext` (`None` when it has none) is a
/// dynamic library: `so`, `dylib` or `dll`.
pub fn is_dylib_extension(ext: Option<&str>) -> (r: bool)
    ensures
        r == match ext {
            Some(e) => e@ == "so"@ || e@ == "dylib"@ || e@ == "dll"@,
            None => false,
        },
{
    match ext {
        Some(e) => str_eq(e, "so") || str_eq(e, "dylib") || str_eq(e, "dll"),
        None => false,
    }
}

/// Directories of the workspace that are not plugin crates.
pub open spec fn excluded_dir_spec(name: Seq<char>) -> bool {
    name == "gstreamer-encoder"@ || name == "gpuvideo-decoder"@ || name == "gpuvideo-encoder"@
}

/// Whether the directory `name` is left out when looking for crates.
pub fn is_excluded_dir(name: &str) -> (r: bool)
    ensures
        r == excluded_dir_spec(name@),
{
    str_eq(name, "gstreamer-encoder") || str_eq(name, "gpuvideo-decoder") || str_eq(name, "gpuvideo-encoder")
}

/// The `name` entries of the `package` and `lib` tables of a manifest.
pub struct ManifestNames {
    pub package: Option<String>,
    pub lib: Option<String>,
}

/// The text of an optional string.
pub open spec fn opt_text(s: Option<String>) -> Option<Seq<char>> {
    match s {
        Some(x) => Some(x@),
        None => None,
    }
}

/// What the toml crate reads from a manifest: `None` when the text is not
/// a TOML document, else the strings at `package.name` and `lib.name`
/// (each `None` when absent or not a string).
pub uninterp spec fn toml_manifest_names(text: Seq<char>) -> Option<(Option<Seq<char>>, Option<Seq<char>>)>;

/// Parses `text` as a `toml::Table` (its `FromStr`) and reads the string
/// at `name` in the `package` and `lib` tables (`Table::get`,
/// `Value::get`, `Value::as_str`). The result is named
/// `toml_manifest_names`; nothing more is claimed of it.
#[verifier::external_body]
fn parse_manifest_names(text: &str) -> (r: Option<ManifestNames>)
    ensures
        match r {
            Some(n) => toml_manifest_names(text@) == Some((opt_text(n.package), opt_text(n.lib))),
            None => toml_manifest_names(text@) is None,
        },
{
    let doc = text.parse::<toml::Table>().ok()?;
    let package = doc.get("package").and_then(|p| p.get("name")).and_then(|n| n.as_str()).map(str::to_owned);
    let lib = doc.get("lib").and_then(|l| l.get("name")).and_then(|n| n.as_str()).map(str::to_owned);
    Some(ManifestNames { package, lib })
}

/// The package and library names of a crate, given what its manifest
/// holds: none without a package name, and the default library name when
/// none is given.
pub open spec fn crate_names_spec(names: Option<(Option<Seq<char>>, Option<Seq<char>>)>) -> Option<(Seq<char>, Seq<char>)> {
    match names {
        Some((Some(p), Some(l))) => Some((p, l)),
        Some((Some(p), None)) => Some((p, default_lib_name_spec(p))),
        _ => None,
    }
}

/// The package and library names of a crate, given what its manifest
/// holds (see `crate_names_spec`).
pub fn names_from_manifest(names: Option<ManifestNames>) -> (r: Option<(String, String)>)
    ensures
        match r {
            Some((p, l)) => crate_names_spec(match names { Some(n) => Some((opt_text(n.package), opt_text(n.lib))), None => None }) == Some((p@, l@)),
            None => crate_names_spec(match names { Some(n) => Some((opt_text(n.package), opt_text(n.lib))), None => None }) is None,
        },
{
    match names {
        Some(n) => match n.package {
            Some(p) => {
                let l = match n.lib {
                    Some(l) => l,
                    None => default_lib_name(p.as_str()),
                };
                Some((p, l))
            },
            None => None,
        },
        None => None,
    }
}

/// The package and library names of the crate whose manifest is `text`;
/// `None` when it does not parse or names no package.
pub fn crate_names(text: &str) -> (r: Option<(String, String)>)
    ensures
        match r {
            Some((p, l)) => crate_names_spec(toml_manifest_names(text@)) == Some((p@, l@)),
            None => crate_names_spec(toml_manifest_names(text@)) is None,
        },
{
    names_from_manifest(parse_manifest_names(text))
}

/// A plugin crate of the workspace.
#[derive(Clone, Debug)]
pub struct DiscoveredCrate {
    pub package_name: String,
    pub lib_name: String,
    pub source_dir: String,
}

impl TextKey for DiscoveredCrate {
    open spec fn key_view(&self) -> Seq<char> {
        self.package_name@
    }

    fn key(&self) -> (r: &str) {
        self.package_name.as_str()
    }
}

} // verus!
