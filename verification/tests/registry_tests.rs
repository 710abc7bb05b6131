use neoutl::registry::{
    extension_matches, format_extension, last_scanning_vst3_bundle, vst3_scan_action, PluginCatalogEntry, PluginFormat,
    ScanCache, Vst3ScanAction, VST3_CRASH_RETRY_LIMIT,
};

fn entry(name: &str) -> PluginCatalogEntry {
    PluginCatalogEntry {
        format: PluginFormat::Clap,
        name: name.to_string(),
        vendor: String::new(),
        plugin_id: format!("id.{name}"),
        path: format!("/plugins/{name}.clap"),
    }
}

#[test]
fn scan_cache_store_catalog_invalidate() {
    let mut cache = ScanCache::new();
    assert!(cache.needs_scan(PluginFormat::Clap));
    assert!(cache.catalog(PluginFormat::Clap).is_empty());
    cache.store(PluginFormat::Clap, vec![entry("a"), entry("b")]);
    assert!(!cache.needs_scan(PluginFormat::Clap));
    assert!(cache.needs_scan(PluginFormat::Vst3));
    let cat = cache.catalog(PluginFormat::Clap);
    assert_eq!(cat.len(), 2);
    assert_eq!(cat[1].name, "b");
    assert_eq!(cat[1].plugin_id, "id.b");
    cache.store(PluginFormat::Lv2, vec![]);
    cache.invalidate(PluginFormat::Clap);
    assert!(cache.needs_scan(PluginFormat::Clap));
    assert!(!cache.needs_scan(PluginFormat::Lv2));
}

#[test]
fn extensions() {
    assert_eq!(format_extension(PluginFormat::Vst3), "vst3");
    assert_eq!(format_extension(PluginFormat::Clap), "clap");
    assert_eq!(format_extension(PluginFormat::Lv2), "lv2");
    assert!(extension_matches(Some("VST3"), PluginFormat::Vst3));
    assert!(extension_matches(Some("Clap"), PluginFormat::Clap));
    assert!(!extension_matches(Some("clap"), PluginFormat::Vst3));
    assert!(!extension_matches(None, PluginFormat::Lv2));
    assert!(!extension_matches(Some("lv"), PluginFormat::Lv2));
}

#[test]
fn crashed_bundle_is_last_marker_line() {
    let log = "start\nscanning VST3 plugin bundle: /a/b.vst3\nok\nscanning VST3 plugin bundle:   /c/d e.vst3  \nSegfault";
    assert_eq!(last_scanning_vst3_bundle(log), Some("/c/d e.vst3".to_string()));
    assert_eq!(last_scanning_vst3_bundle("scanning VST3 plugin bundle: /x.vst3"), Some("/x.vst3".to_string()));
    assert_eq!(last_scanning_vst3_bundle("nothing here"), None);
    assert_eq!(last_scanning_vst3_bundle("scanning VST3 plugin bundle:   \nboom"), None);
    assert_eq!(last_scanning_vst3_bundle(""), None);
}

#[test]
fn vst3_scan_actions() {
    assert!(matches!(vst3_scan_action(true, Some(false), ""), Vst3ScanAction::UseOutput));
    assert!(matches!(vst3_scan_action(false, None, "x"), Vst3ScanAction::GiveUp));
    assert!(matches!(vst3_scan_action(false, Some(true), "x"), Vst3ScanAction::GiveUp));
    assert!(matches!(vst3_scan_action(false, Some(false), "no marker"), Vst3ScanAction::GiveUp));
    match vst3_scan_action(false, Some(false), "scanning VST3 plugin bundle: /bad.vst3\n") {
        Vst3ScanAction::BlockAndRetry(p) => assert_eq!(p, "/bad.vst3"),
        _ => panic!("expected a retry"),
    }
    assert_eq!(VST3_CRASH_RETRY_LIMIT, 32);
}
