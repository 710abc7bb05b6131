use neoutl::modes::{target_layer_mode_from_i32, target_layer_mode_to_i32, BlendMode, TargetLayerMode, WindowKind};

#[test]
fn blend_pipeline_indices() {
    assert_eq!(BlendMode::default(), BlendMode::Normal);
    assert_eq!(BlendMode::Normal.pipeline_index(), 0);
    assert_eq!(BlendMode::Overlay.pipeline_index(), 4);
    assert_eq!(BlendMode::Exclusion.pipeline_index(), 8);
}

#[test]
fn camera_target_codes_roundtrip() {
    for m in [TargetLayerMode::Origin, TargetLayerMode::CameraRelative, TargetLayerMode::Layer(-3), TargetLayerMode::Layer(7)] {
        let (mode, layer) = target_layer_mode_to_i32(m);
        assert_eq!(target_layer_mode_from_i32(mode, layer), m);
    }
    assert_eq!(target_layer_mode_to_i32(TargetLayerMode::Layer(7)), (2, 7));
    assert_eq!(target_layer_mode_from_i32(9, 4), TargetLayerMode::Origin);
}

#[test]
fn window_kinds() {
    assert_eq!(WindowKind::Timeline.title(), "NeoUtl - 拡張編集");
    assert_eq!(WindowKind::Export.title(), "メディアの書き出し");
    assert_eq!(WindowKind::Launcher.size(), (860, 640));
    assert_eq!(WindowKind::Splash.size(), (0, 0));
    assert_eq!(WindowKind::SceneSettings.min_size(), Some((600, 240)));
    assert_eq!(WindowKind::Preview.min_size(), None);
    assert!(WindowKind::Export.is_lazy_dialog());
    assert!(!WindowKind::Timeline.is_lazy_dialog());
}
