//! Core editing logic of the NeoUtl video editor: undo history, keyframe
//! tracks, presets, expression parsing, timeline arithmetic, frame-pool
//! allocation policy, plugin scanning decisions and assorted helpers.
use vstd::prelude::*;

pub mod abi;
pub mod artifacts;
pub mod calendar;
pub mod expression;
pub mod history;
pub mod i18n;
pub mod keyframes;
pub mod literals;
pub mod media_cache;
pub mod modes;
pub mod presets;
pub mod project;
pub mod registry;
pub mod sorting;
pub mod strmap;
pub mod text;
pub mod timeline;

verus! {

} // verus!
