use neoutl::calendar::civil_from_days;
use neoutl::project::{
    active_format, copy_name_candidate, dir_name_candidate, format_date, sanitize_dir_name, use_recovery,
    ProjectMeta, SceneFormat,
};
use neoutl::sorting::sort_by_key;

#[test]
fn sanitize_dir_name_keeps_unicode_alnum() {
    let name = "コリジョン";
    let cleaned = sanitize_dir_name(name);
    assert_eq!(cleaned, name);
}

#[test]
fn sanitize_dir_name_replaces_path_separators() {
    let name = "a/b\\c";
    let cleaned = sanitize_dir_name(name);
    assert_eq!(cleaned, "a_b_c");
}

#[test]
fn sanitize_dir_name_empty_falls_back() {
    let cleaned = sanitize_dir_name("   ");
    assert_eq!(cleaned, "project");
}

#[test]
fn sanitize_dir_name_trims_and_keeps_dots_and_dashes() {
    assert_eq!(sanitize_dir_name("  my-proj.v2 final  "), "my-proj.v2_final");
    assert_eq!(sanitize_dir_name(""), "project");
}

#[test]
fn format_date_epoch_and_leap_days() {
    assert_eq!(format_date(0), "1970/01/01");
    assert_eq!(format_date(86_399), "1970/01/01");
    assert_eq!(format_date(86_400), "1970/01/02");
    assert_eq!(format_date(31_536_000), "1971/01/01");
    assert_eq!(format_date(951_782_400), "2000/02/29");
    assert_eq!(format_date(1_709_164_800), "2024/02/29");
    assert_eq!(format_date(1_709_251_200), "2024/03/01");
    assert_eq!(format_date(4_102_444_800), "2100/01/01");
}

#[test]
fn format_date_far_future_keeps_all_year_digits() {
    // 10000-01-01 is 2932897 days after 1970-01-01.
    assert_eq!(format_date(2_932_897 * 86_400), "10000/01/01");
}

#[test]
fn dir_name_candidates_append_suffix() {
    assert_eq!(dir_name_candidate("proj", 0), "proj");
    assert_eq!(dir_name_candidate("proj", 1), "proj");
    assert_eq!(dir_name_candidate("proj", 2), "proj_2");
    assert_eq!(dir_name_candidate("proj", 10), "proj_10");
}

#[test]
fn copy_name_candidates() {
    assert_eq!(copy_name_candidate("Demo", 1), "Demo_copy");
    assert_eq!(copy_name_candidate("Demo", 2), "Demo_copy2");
    assert_eq!(copy_name_candidate("Demo", 13), "Demo_copy13");
}

#[test]
fn recovery_is_used_only_when_newer() {
    assert!(!use_recovery(None, Some(5)));
    assert!(!use_recovery(None, None));
    assert!(use_recovery(Some(1), None));
    assert!(use_recovery(Some(6), Some(5)));
    assert!(!use_recovery(Some(5), Some(5)));
    assert!(!use_recovery(Some(4), Some(5)));
}

#[test]
fn active_scene_format_or_default() {
    let scenes = vec![
        SceneFormat { id: 0, fps: 24, width: 640, height: 480 },
        SceneFormat { id: 1, fps: 60, width: 1280, height: 720 },
        SceneFormat { id: 1, fps: 25, width: 720, height: 576 },
    ];
    assert_eq!(active_format(&scenes, 1), (60, 1280, 720));
    assert_eq!(active_format(&scenes, 0), (24, 640, 480));
    assert_eq!(active_format(&scenes, 7), (30, 1920, 1080));
    assert_eq!(active_format(&Vec::new(), 0), (30, 1920, 1080));
}

fn meta(name: &str, fps: u32) -> ProjectMeta {
    ProjectMeta {
        name: name.to_string(),
        dir: format!("/p/{name}"),
        fps,
        width: 1920,
        height: 1080,
        audio_sample_rate: 48000,
        audio_channels: 2,
        modified_secs: 0,
    }
}

#[test]
fn projects_sort_by_name_stably() {
    let list = vec![meta("b", 1), meta("a", 2), meta("b", 3), meta("B", 4)];
    let sorted = sort_by_key(list);
    let got: Vec<(String, u32)> = sorted.iter().map(|m| (m.name.clone(), m.fps)).collect();
    assert_eq!(
        got,
        vec![("B".to_string(), 4), ("a".to_string(), 2), ("b".to_string(), 1), ("b".to_string(), 3)]
    );
}

#[test]
fn civil_from_days_counts_from_the_epoch() {
    assert_eq!(civil_from_days(0), (1970, 1, 1));
    assert_eq!(civil_from_days(-1), (1969, 12, 31));
    assert_eq!(civil_from_days(59), (1970, 3, 1));
    assert_eq!(civil_from_days(19_723), (2024, 1, 1));
    assert_eq!(civil_from_days(19_782), (2024, 2, 29));
    assert_eq!(civil_from_days(-719_468), (0, 3, 1));
    assert_eq!(civil_from_days(-719_469), (0, 2, 29));
}

#[test]
fn civil_from_days_walks_one_day_at_a_time() {
    let mut prev = civil_from_days(-800_000);
    for z in -799_999i64..=30_000 {
        let cur = civil_from_days(z);
        if cur.2 != 1 {
            assert_eq!((cur.0, cur.1, cur.2 - 1), prev);
        } else if cur.1 != 1 {
            assert_eq!((cur.0, cur.1 - 1), (prev.0, prev.1));
        } else {
            assert_eq!((cur.0 - 1, 12, 31), prev);
        }
        prev = cur;
    }
}

#[test]
fn sanitize_dir_name_drops_exactly_the_whitespace() {
    for cp in (0u32..0x3100).chain(0xFEFF..0xFF00) {
        if let Some(c) = char::from_u32(cp) {
            if c.is_alphanumeric() || c == '-' || c == '_' || c == '.' {
                continue;
            }
            let cleaned = sanitize_dir_name(&c.to_string());
            assert_eq!(cleaned == "project", c.is_whitespace(), "code point {:x}", cp);
        }
    }
}
