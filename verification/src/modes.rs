//! Small enumerations of the object model: blend modes, text alignment,
//! frame-buffer kinds and the target of a camera, with their stored codes.
use vstd::prelude::*;

verus! {

/// How an object is blended onto what lies below it.
#[derive(Clone, Copy, Debug, PartialEq, Eq, Structural)]
pub enum BlendMode {
    Normal,
    Add,
    Multiply,
    Screen,
    Overlay,
    Darken,
    Lighten,
    Difference,
    Exclusion,
}

/// The index of a blend mode's render pipeline.
pub open spec fn pipeline_index_spec(m: BlendMode) -> u32 {
    match m {
        BlendMode::Normal => 0,
        BlendMode::Add => 1,
        BlendMode::Multiply => 2,
        BlendMode::Screen => 3,
        BlendMode::Overlay => 4,
        BlendMode::Darken => 5,
        BlendMode::Lighten => 6,
        BlendMode::Difference => 7,
        BlendMode::Exclusion => 8,
    }
}

impl BlendMode {
    /// The index of this mode's render pipeline (0 to 8, in declaration
    /// order).
    pub fn pipeline_index(self) -> (r: u32)
        ensures
            r == pipeline_index_spec(self),
            r < 9,
    {
        match self {
            BlendMode::Normal => 0,
            BlendMode::Add => 1,
            BlendMode::Multiply => 2,
            BlendMode::Screen => 3,
            BlendMode::Overlay => 4,
            BlendMode::Darken => 5,
            BlendMode::Lighten => 6,
            BlendMode::Difference => 7,
            BlendMode::Exclusion => 8,
        }
    }
}

impl Default for BlendMode {
    /// `Normal`.
    fn default() -> (r: Self)
        ensures
            r == BlendMode::Normal,
    {
        BlendMode::Normal
    }
}

/// Distinct blend modes use distinct pipelines.
pub proof fn law_pipeline_index_injective(a: BlendMode, b: BlendMode)
    requires
        pipeline_index_spec(a) == pipeline_index_spec(b),
    ensures
        a == b,
{
}

/// Horizontal alignment of text.
#[derive(Clone, Copy, Debug, PartialEq, Eq, Structural)]
pub enum TextAlign {
    Left,
    Center,
    Right,
}

/// What a frame buffer captures.
#[derive(Clone, Copy, Debug, PartialEq, Eq, Structural)]
pub enum FrameBufferKind {
    Group,
}

/// Where a camera looks: the origin, a point relative to the camera, or
/// the position of a layer.
#[derive(Clone, Copy, Debug, PartialEq, Eq, Structural)]
pub enum TargetLayerMode {
    Origin,
    CameraRelative,
    Layer(i32),
}

/// The stored (mode, layer) codes of a camera target.
pub open spec fn target_codes_spec(m: TargetLayerMode) -> (i32, i32) {
    match m {
        TargetLayerMode::Origin => (0, 0),
        TargetLayerMode::CameraRelative => (1, 0),
        TargetLayerMode::Layer(n) => (2, n),
    }
}

/// The camera target of stored codes; unknown modes mean the origin.
pub open spec fn target_from_codes_spec(mode: i32, layer: i32) -> TargetLayerMode {
    if mode == 1 {
        TargetLayerMode::CameraRelative
    } else if mode == 2 {
        TargetLayerMode::Layer(layer)
    } else {
        TargetLayerMode::Origin
    }
}

/// The stored (mode, layer) codes of a camera target.
pub fn target_layer_mode_to_i32(m: TargetLayerMode) -> (r: (i32, i32))
    ensures
        r == target_codes_spec(m),
{
    match m {
        TargetLayerMode::Origin => (0, 0),
        TargetLayerMode::CameraRelative => (1, 0),
        TargetLayerMode::Layer(n) => (2, n),
    }
}

/// The camera target of stored codes; unknown modes mean the origin.
pub fn target_layer_mode_from_i32(mode: i32, layer: i32) -> (r: TargetLayerMode)
    ensures
        r == target_from_codes_spec(mode, layer),
{
    match mode {
        1 => TargetLayerMode::CameraRelative,
        2 => TargetLayerMode::Layer(layer),
        _ => TargetLayerMode::Origin,
    }
}

/// Storing a camera target and reading it back gives the same target.
pub proof fn law_target_codes_roundtrip(m: TargetLayerMode)
    ensures
        target_from_codes_spec(target_codes_spec(m).0, target_codes_spec(m).1) == m,
{
}

/// The kinds of window of the application.
#[derive(Clone, Copy, Debug, PartialEq, Eq, Structural)]
pub enum WindowKind {
    Splash,
    Launcher,
    Preview,
    Timeline,
    Properties,
    SystemSettings,
    ProjectSettings,
    SceneSettings,
    Keybindings,
    Export,
    EffectAdd,
    EasingEditor,
}

/// The title of a window kind.
pub open spec fn window_title_spec(k: WindowKind) -> Seq<char> {
    match k {
        WindowKind::Splash => "NeoUtl"@,
        WindowKind::Launcher => "NeoUtl - プロジェクトランチャー"@,
        WindowKind::Preview => "NeoUtl"@,
        WindowKind::Timeline => "NeoUtl - 拡張編集"@,
        WindowKind::Properties => "NeoUtl - オブジェクト設定"@,
        WindowKind::SystemSettings => "NeoUtl - システム設定"@,
        WindowKind::ProjectSettings => "プロジェクト設定"@,
        WindowKind::SceneSettings => "シーン設定"@,
        WindowKind::Keybindings => "ショートカット設定"@,
        WindowKind::Export => "メディアの書き出し"@,
        WindowKind::EffectAdd => "エフェクト追加"@,
        WindowKind::EasingEditor => "NeoUtl - イージング編集"@,
    }
}

/// The initial inner size of a window kind, in logical pixels.
pub open spec fn window_size_spec(k: WindowKind) -> (u32, u32) {
    match k {
        WindowKind::Splash => (0, 0),
        WindowKind::Launcher => (860, 640),
        WindowKind::Preview | WindowKind::Timeline | WindowKind::Properties => (720, 540),
        WindowKind::SystemSettings => (720, 540),
        WindowKind::ProjectSettings => (520, 360),
        WindowKind::SceneSettings => (520, 700),
        WindowKind::Keybindings => (720, 540),
        WindowKind::Export => (620, 560),
        WindowKind::EffectAdd => (420, 560),
        WindowKind::EasingEditor => (580, 460),
    }
}

impl WindowKind {
    /// The window title.
    pub fn title(self) -> (r: &'static str)
        ensures
            r@ == window_title_spec(self),
    {
        match self {
            WindowKind::Splash => "NeoUtl",
            WindowKind::Launcher => "NeoUtl - プロジェクトランチャー",
            WindowKind::Preview => "NeoUtl",
            WindowKind::Timeline => "NeoUtl - 拡張編集",
            WindowKind::Properties => "NeoUtl - オブジェクト設定",
            WindowKind::SystemSettings => "NeoUtl - システム設定",
            WindowKind::ProjectSettings => "プロジェクト設定",
            WindowKind::SceneSettings => "シーン設定",
            WindowKind::Keybindings => "ショートカット設定",
            WindowKind::Export => "メディアの書き出し",
            WindowKind::EffectAdd => "エフェクト追加",
            WindowKind::EasingEditor => "NeoUtl - イージング編集",
        }
    }

    /// The initial inner size, in logical pixels.
    pub fn size(self) -> (r: (u32, u32))
        ensures
            r == window_size_spec(self),
    {
        match self {
            WindowKind::Splash => (0, 0),
            WindowKind::Launcher => (860, 640),
            WindowKind::Preview | WindowKind::Timeline | WindowKind::Properties => (720, 540),
            WindowKind::SystemSettings => (720, 540),
            WindowKind::ProjectSettings => (520, 360),
            WindowKind::SceneSettings => (520, 700),
            WindowKind::Keybindings => (720, 540),
            WindowKind::Export => (620, 560),
            WindowKind::EffectAdd => (420, 560),
            WindowKind::EasingEditor => (580, 460),
        }
    }

    /// The smallest inner size the window may be resized to, if limited.
    pub fn min_size(self) -> (r: Option<(u32, u32)>)
        ensures
            r == match self {
                WindowKind::Launcher => Some((720u32, 520u32)),
                WindowKind::EffectAdd => Some((400u32, 240u32)),
                WindowKind::SceneSettings => Some((600u32, 240u32)),
                WindowKind::SystemSettings => Some((680u32, 240u32)),
                _ => None,
            },
    {
        match self {
            WindowKind::Launcher => Some((720, 520)),
            WindowKind::EffectAdd => Some((400, 240)),
            WindowKind::SceneSettings => Some((600, 240)),
            WindowKind::SystemSettings => Some((680, 240)),
            _ => None,
        }
    }

    /// Whether the window is a dialog created only when first opened.
    pub fn is_lazy_dialog(self) -> (r: bool)
        ensures
            r == (self is SystemSettings || self is ProjectSettings || self is SceneSettings
                || self is Keybindings || self is Export || self is EffectAdd || self is EasingEditor),
    {
        match self {
            WindowKind::SystemSettings | WindowKind::ProjectSettings | WindowKind::SceneSettings
            | WindowKind::Keybindings | WindowKind::Export | WindowKind::EffectAdd
            | WindowKind::EasingEditor => true,
            _ => false,
        }
    }
}

} // verus!
