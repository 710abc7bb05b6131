use neoutl::artifacts::{
    crate_names, default_lib_name, dylib_filename, exe_filename, is_dylib_extension, is_excluded_dir, DiscoveredCrate,
    TargetOs,
};
use neoutl::sorting::sort_by_key;

#[test]
fn library_and_program_file_names() {
    assert_eq!(dylib_filename("neoutl_blur", TargetOs::Windows), "neoutl_blur.dll");
    assert_eq!(dylib_filename("neoutl_blur", TargetOs::Macos), "libneoutl_blur.dylib");
    assert_eq!(dylib_filename("neoutl_blur", TargetOs::Unix), "libneoutl_blur.so");
    assert_eq!(exe_filename("neoutl", TargetOs::Windows), "neoutl.exe");
    assert_eq!(exe_filename("neoutl", TargetOs::Unix), "neoutl");
    assert_eq!(exe_filename("neoutl", TargetOs::Macos), "neoutl");
}

#[test]
fn library_names_default_from_package() {
    assert_eq!(default_lib_name("neoutl-effect-blur"), "neoutl_effect_blur");
    assert_eq!(default_lib_name(""), "");
}

#[test]
fn excluded_directories() {
    assert!(is_excluded_dir("gstreamer-encoder"));
    assert!(is_excluded_dir("gpuvideo-decoder"));
    assert!(is_excluded_dir("gpuvideo-encoder"));
    assert!(!is_excluded_dir("blur"));
}

#[test]
fn crate_names_from_manifests() {
    assert_eq!(
        crate_names("[package]\nname = \"my-crate\"\nversion = \"0.1.0\"\n"),
        Some(("my-crate".to_string(), "my_crate".to_string()))
    );
    assert_eq!(
        crate_names("[package]\nname = \"my-crate\"\n[lib]\nname = \"custom\"\n"),
        Some(("my-crate".to_string(), "custom".to_string()))
    );
    assert_eq!(crate_names("[workspace]\nmembers = []\n"), None);
    assert_eq!(crate_names("[[[ not toml"), None);
    assert_eq!(crate_names("[package]\nname = 3\n"), None);
}

#[test]
fn crates_sort_by_package_name() {
    let mk = |p: &str| DiscoveredCrate { package_name: p.to_string(), lib_name: p.replace('-', "_"), source_dir: format!("crates/{p}") };
    let sorted = sort_by_key(vec![mk("zeta"), mk("alpha"), mk("mid")]);
    let names: Vec<&str> = sorted.iter().map(|c| c.package_name.as_str()).collect();
    assert_eq!(names, vec!["alpha", "mid", "zeta"]);
}

#[test]
fn dynamic_library_extensions() {
    assert!(is_dylib_extension(Some("so")));
    assert!(is_dylib_extension(Some("dylib")));
    assert!(is_dylib_extension(Some("dll")));
    assert!(!is_dylib_extension(Some("DLL")));
    assert!(!is_dylib_extension(Some("lua")));
    assert!(!is_dylib_extension(None));
}
