use neoutl::presets::{
    preset_file_name, preset_id_for, presets_base, sanitize_id, sort_by_name, PresetData, PresetStore, PresetsBase,
};

fn preset(effect_uuid: &str, id: &str, name: &str, params: Vec<(String, f32)>) -> PresetData<f32> {
    PresetData {
        id: id.to_string(),
        effect_uuid: effect_uuid.to_string(),
        name: name.to_string(),
        params,
        created_at_unix: 0,
    }
}

#[test]
fn preset_store_crud_and_apply() {
    let mut store: PresetStore<f32> = PresetStore::with_base_dir("presets".to_string());

    let effect_uuid = "neoutl.effect.transform";
    assert_eq!(store.get_presets_for_effect(effect_uuid).len(), 0);

    let params = vec![
        ("X".to_string(), 100.0),
        ("Y".to_string(), 200.0),
        ("Scale".to_string(), 1.5),
    ];
    let id = preset_id_for("My Preset", 1_700_000_000_000);
    let saved = preset(effect_uuid, &id, "My Preset", params.clone());
    store.upsert_preset(saved.clone());
    assert_eq!(saved.name, "My Preset");
    assert_eq!(saved.effect_uuid, effect_uuid);
    assert_eq!(saved.params.len(), 3);

    let presets = store.get_presets_for_effect(effect_uuid);
    assert_eq!(presets.len(), 1);
    assert_eq!(presets[0].id, saved.id);

    // A store loaded again from what was saved holds the same preset.
    let mut reloaded_store: PresetStore<f32> = PresetStore::with_base_dir("presets".to_string());
    reloaded_store.set_presets_for_effect(effect_uuid.to_string(), vec![saved.clone()]);
    let reloaded_presets = reloaded_store.get_presets_for_effect(effect_uuid);
    assert_eq!(reloaded_presets.len(), 1);
    assert_eq!(reloaded_presets[0].name, "My Preset");
    assert_eq!(reloaded_presets[0].params, params);

    let param_names = ["X", "Y", "Z", "Scale", "Rotation"];
    let mut current_params = [0.0f32; 5];
    let applied = store.apply_to_params(effect_uuid, &saved.id, &param_names, &mut current_params);
    assert!(applied);
    assert_eq!(current_params[0], 100.0);
    assert_eq!(current_params[1], 200.0);
    assert_eq!(current_params[2], 0.0);
    assert_eq!(current_params[3], 1.5);
    assert_eq!(current_params[4], 0.0);

    store.remove_preset(effect_uuid, &saved.id);
    assert_eq!(store.get_presets_for_effect(effect_uuid).len(), 0);
    assert!(store.find_preset(effect_uuid, &saved.id).is_none());
}

#[test]
fn sanitize_and_ids() {
    assert_eq!(sanitize_id("My Preset"), "My_Preset");
    assert_eq!(sanitize_id("__ a/b __"), "a_b");
    assert_eq!(sanitize_id("日本"), "preset");
    assert_eq!(sanitize_id(""), "preset");
    assert_eq!(preset_id_for("My Preset", 42), "My_Preset_42");
    assert_eq!(preset_file_name("My_Preset_42"), "My_Preset_42.json");
}

#[test]
fn presets_sort_by_name_stably_and_upsert_replaces() {
    let list = vec![
        preset("e", "1", "b", vec![]),
        preset("e", "2", "a", vec![]),
        preset("e", "3", "b", vec![]),
    ];
    let sorted = sort_by_name(list);
    let ids: Vec<&str> = sorted.iter().map(|p| p.id.as_str()).collect();
    assert_eq!(ids, vec!["2", "1", "3"]);

    let mut store: PresetStore<f32> = PresetStore::with_base_dir("d".to_string());
    store.upsert_preset(preset("e", "1", "zeta", vec![("A".to_string(), 1.0)]));
    store.upsert_preset(preset("e", "2", "alpha", vec![]));
    store.upsert_preset(preset("e", "1", "beta", vec![("A".to_string(), 2.0)]));
    let names: Vec<&str> = store.get_presets_for_effect("e").iter().map(|p| p.name.as_str()).collect();
    assert_eq!(names, vec!["alpha", "beta"]);
    assert_eq!(store.find_preset("e", "1").unwrap().params[0].1, 2.0);
    assert_eq!(store.base_dir(), "d");
}

#[test]
fn apply_missing_preset_changes_nothing() {
    let store: PresetStore<f32> = PresetStore::with_base_dir("d".to_string());
    let mut out = [7.0f32; 2];
    assert!(!store.apply_to_params("e", "nope", &["A", "B"], &mut out));
    assert_eq!(out, [7.0, 7.0]);
}

#[test]
fn presets_base_from_environment() {
    assert!(matches!(presets_base(true, Some("C:\\AppData".to_string()), None, None), PresetsBase::AppData(p) if p == "C:\\AppData"));
    assert!(matches!(presets_base(true, Some(String::new()), Some("x".to_string()), None), PresetsBase::Local));
    assert!(matches!(presets_base(false, None, Some("/xdg".to_string()), Some("/home/u".to_string())), PresetsBase::XdgConfig(p) if p == "/xdg"));
    assert!(matches!(presets_base(false, None, Some(String::new()), Some("/home/u".to_string())), PresetsBase::HomeConfig(p) if p == "/home/u"));
    assert!(matches!(presets_base(false, Some("a".to_string()), None, None), PresetsBase::Local));
}

#[test]
fn sanitize_id_gives_a_clean_identifier() {
    for name in ["My Preset", "__x__", "-", "a--b", " ", "é", "Q/R\\S", "_-_"] {
        let id = sanitize_id(name);
        assert!(!id.is_empty());
        assert!(id.chars().all(|c| c.is_ascii_alphanumeric() || c == '_' || c == '-'));
        assert!(!id.starts_with('_') && !id.ends_with('_'));
        if !name.chars().any(|c| c.is_ascii_alphanumeric() || c == '-') {
            assert_eq!(id, "preset");
        }
    }
}

#[test]
fn apply_last_writer_wins_per_slot() {
    let mut store: PresetStore<f32> = PresetStore::with_base_dir("d".to_string());
    store.upsert_preset(preset(
        "e",
        "1",
        "dup",
        vec![("A".to_string(), 1.0), ("C".to_string(), 9.0), ("A".to_string(), 2.0), ("Z".to_string(), 5.0)],
    ));
    let mut out = [0.0f32; 3];
    assert!(store.apply_to_params("e", "1", &["A", "B", "A"], &mut out));
    assert_eq!(out, [2.0, 0.0, 0.0]);
    let mut short = [4.0f32; 1];
    assert!(!store.apply_to_params("e", "1", &["B", "C"], &mut short));
    assert_eq!(short, [4.0]);
}
